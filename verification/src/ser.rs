//! The emission engine: a single-pass state machine that consumes producer
//! events (scalars, sequences, keyed tables) and writes TOML document text,
//! tracking a chain of nesting frames to decide when table headers must be
//! written and which events the grammar forbids.

use vstd::prelude::*;

use crate::num::dec_digits;
use crate::num::int_text;
use crate::num::push_i64_text;
use crate::num::push_u64_text;
use crate::text::chars_to_string;
use crate::text::contains_char;
use crate::text::push_chars;
use crate::text::spec_contains_char;
use crate::text::str_eq;
use crate::value::spec_ty;
use crate::value::Datetime;
use crate::value::Table;
use crate::value::Ty;
use crate::value::Value;
use vstd::pervasive::VecAdditionalExecFns;
use vstd::string::StringExecFns;
use vstd::string::StrSliceExecFns;

verus! {

/// The reserved aggregate name (and field name) under which an opaque
/// datetime scalar travels through the producer protocol, so that a
/// protocol knowing only primitives, sequences and tables can carry it.
pub const DATETIME_SENTINEL: &'static str = "$__toml_private_datetime";

/// Errors that can occur when serializing a type.
#[derive(Clone, Debug)]
pub enum Error {
    /// A shape was announced that this format cannot represent, or the
    /// producer broke the protocol's nesting discipline.
    UnsupportedType,
    /// The key of a table was not a string.
    KeyNotString,
    /// Keys in tables are not allowed to have newlines.
    KeyNewline,
    /// Arrays in TOML must have a homogeneous type.
    ArrayMixedType,
    /// All scalar values in a table must be emitted before nested tables.
    ValueAfterTable,
    /// A serialized datetime was invalid.
    DateInvalid,
    /// An absent value was emitted where omission is undefined.
    UnsupportedNone,
    /// A custom error generated by a producer.
    Custom(String),
}

/// One level of nesting during emission.
pub enum Frame {
    /// Inside a table, about to write the field named `key`; `first` is
    /// true until a field or header has been written under this table,
    /// `table_emitted` once a nested table header has been forced.
    Table { key: String, first: bool, table_emitted: bool },
    /// Inside an array; `ty` is the element type resolved from the first
    /// element.
    Array { first: bool, ty: Option<Ty> },
}

/// The mathematical shadow of a [`Frame`].
#[verifier::ext_equal]
pub enum FrameV {
    Table { key: Seq<char>, first: bool, table_emitted: bool },
    Array { first: bool, ty: Option<Ty> },
}

impl View for Frame {
    type V = FrameV;

    open spec fn view(&self) -> FrameV {
        match *self {
            Frame::Table { key, first, table_emitted } => FrameV::Table {
                key: key@,
                first,
                table_emitted,
            },
            Frame::Array { first, ty } => FrameV::Array { first, ty },
        }
    }
}

/// The views of a stack of frames, outermost first.
pub open spec fn frames_view(s: Seq<Frame>) -> Seq<FrameV> {
    s.map_values(|f: Frame| f@)
}

/// The mathematical state of a [`Serializer`]: the text written so far,
/// the chain of nesting frames, and whether the engine is inside the
/// reserved datetime aggregate.
#[verifier::ext_equal]
pub struct SerView {
    pub out: Seq<char>,
    pub frames: Seq<FrameV>,
    pub dt: bool,
}

/// Serialization implementation for TOML: owns the output buffer and the
/// frame chain, and exposes the consumer side of the producer protocol.
pub struct Serializer {
    pub dst: Vec<char>,
    pub frames: Vec<Frame>,
    pub dt: bool,
}

impl View for Serializer {
    type V = SerView;

    open spec fn view(&self) -> SerView {
        SerView { out: self.dst@, frames: frames_view(self.frames@), dt: self.dt }
    }
}

// ---------------------------------------------------------------------------
// Specification of the transition each emission step makes.
// ---------------------------------------------------------------------------
/// Resolving an array's element type: outside an array nothing happens; in
/// an array the first element fixes the type and later elements must match.
pub open spec fn s_array_type(frames: Seq<FrameV>, t: Ty) -> Result<Seq<FrameV>, Error> {
    if frames.len() == 0 {
        Result::Ok(frames)
    } else {
        match frames.last() {
            FrameV::Array { first, ty } => match ty {
                Option::Some(prev) => if prev == t {
                    Result::Ok(frames)
                } else {
                    Result::Err(Error::ArrayMixedType)
                },
                Option::None => Result::Ok(
                    frames.update(frames.len() - 1, FrameV::Array { first, ty: Option::Some(t) }),
                ),
            },
            _ => Result::Ok(frames),
        }
    }
}

/// The separator written before an array element.
pub open spec fn s_sep(first: bool) -> Seq<char> {
    if first {
        seq!['[']
    } else {
        seq![',', ' ']
    }
}

/// Characters that may appear in a bare (unquoted) key.
pub open spec fn is_bare_char(c: char) -> bool {
    (97 <= c as u32 && c as u32 <= 122) || (65 <= c as u32 && c as u32 <= 90) || (48 <= c as u32
        && c as u32 <= 57) || c as u32 == 45 || c as u32 == 95
}

/// Whether a key can be written without quotes: one or more characters,
/// all from the bare class. The empty key is not bare and is quoted.
pub open spec fn spec_bare_key(k: Seq<char>) -> bool {
    k.len() > 0 && (forall|i: int| 0 <= i < k.len() ==> is_bare_char(#[trigger] k[i]))
}

/// A run of `0`s bringing a digit sequence up to four characters.
pub open spec fn pad4(digits: Seq<char>) -> Seq<char> {
    if digits.len() == 1 {
        seq!['0', '0', '0'] + digits
    } else if digits.len() == 2 {
        seq!['0', '0'] + digits
    } else if digits.len() == 3 {
        seq!['0'] + digits
    } else {
        digits
    }
}

/// The escape of one character inside a quoted string: the short escapes
/// of the grammar, a zero-padded numeric escape for the remaining control
/// characters, and every other character unchanged.
pub open spec fn esc_char(c: char) -> Seq<char> {
    if c == '\u{8}' {
        seq!['\\', 'b']
    } else if c == '\u{9}' {
        seq!['\\', 't']
    } else if c == '\u{a}' {
        seq!['\\', 'n']
    } else if c == '\u{c}' {
        seq!['\\', 'f']
    } else if c == '\u{d}' {
        seq!['\\', 'r']
    } else if c == '"' {
        seq!['\\', '"']
    } else if c == '\\' {
        seq!['\\', '\\']
    } else if (c as u32) < 0x1f {
        seq!['\\', 'u'] + pad4(dec_digits(c as u32 as nat))
    } else {
        seq![c]
    }
}

/// The concatenated escapes of every character of `s`.
pub open spec fn spec_escaped(s: Seq<char>) -> Seq<char>
    decreases s.len(),
{
    if s.len() == 0 {
        Seq::empty()
    } else {
        spec_escaped(s.drop_last()) + esc_char(s.last())
    }
}

/// A quoted string: `"` + escapes + `"`.
pub open spec fn spec_quoted(s: Seq<char>) -> Seq<char> {
    seq!['"'] + spec_escaped(s) + seq!['"']
}

/// A key as written: bare when possible, quoted otherwise.
pub open spec fn spec_escape_key(k: Seq<char>) -> Seq<char> {
    if spec_bare_key(k) {
        k
    } else {
        spec_quoted(k)
    }
}

/// Walking the chain up to `i` frames to write the dotted key path of a
/// header: every table frame contributes its key and is marked as having
/// had a table emitted beneath it. Returns the written path, the updated
/// chain, and whether no key was written at all.
pub open spec fn s_key_part(frames: Seq<FrameV>, i: int) -> (Seq<char>, Seq<FrameV>, bool)
    decreases i,
{
    if i <= 0 {
        (Seq::empty(), frames, true)
    } else {
        match frames[i - 1] {
            FrameV::Array { .. } => s_key_part(frames, i - 1),
            FrameV::Table { key, first, table_emitted } => {
                let marked = frames.update(
                    i - 1,
                    FrameV::Table { key, first, table_emitted: true },
                );
                let (w, updated, root) = s_key_part(marked, i - 1);
                let path = if root {
                    w + spec_escape_key(key)
                } else {
                    w + seq!['.'] + spec_escape_key(key)
                };
                (path, updated, false)
            },
        }
    }
}

/// Writing a table header over the chain `frames[..i]`: nothing at the
/// document root; otherwise `[path]`, or `[[path]]` when the innermost
/// context is an array element.
pub open spec fn s_table_header(frames: Seq<FrameV>, i: int) -> (Seq<char>, Seq<FrameV>) {
    if i <= 0 {
        (Seq::empty(), frames)
    } else {
        let aot = frames[i - 1] is Array;
        let (path, updated, _) = s_key_part(frames, i);
        let open_b: Seq<char> = if aot {
            seq!['[', '[']
        } else {
            seq!['[']
        };
        let close_b: Seq<char> = if aot {
            seq![']', ']', '\n']
        } else {
            seq![']', '\n']
        };
        (open_b + path + close_b, updated)
    }
}

/// The work done before a value is written at chain depth `i`: walking
/// toward the root, writing array separators and — for the first field of
/// a table — the enclosing header, then `key = `. Fails with
/// `ValueAfterTable` when the current table has already emitted a nested
/// table, and with `UnsupportedType` for a bare value at the document
/// root. The walk is total: it does not demand that an array frame's
/// element type be resolved (every event method resolves it before
/// walking, so an unresolved type is unreachable from them) and simply
/// writes the element separator for such a frame.
pub open spec fn s_emit_key_rec(frames: Seq<FrameV>, i: int) -> Result<
    (Seq<char>, Seq<FrameV>),
    Error,
>
    decreases i,
{
    if i <= 0 {
        Result::Err(Error::UnsupportedType)
    } else {
        match frames[i - 1] {
            FrameV::Array { first, ty } => {
                if first {
                    match s_emit_key_rec(frames, i - 1) {
                        Result::Err(e) => Result::Err(e),
                        Result::Ok((w, updated)) => Result::Ok((w + s_sep(first), updated)),
                    }
                } else {
                    Result::Ok((s_sep(first), frames))
                }
            },
            FrameV::Table { key, first, table_emitted } => {
                if table_emitted {
                    Result::Err(Error::ValueAfterTable)
                } else {
                    let (header, updated) = if first {
                        s_table_header(frames, i - 1)
                    } else {
                        (Seq::empty(), frames)
                    };
                    let updated2 = if first {
                        updated.update(
                            i - 1,
                            FrameV::Table { key, first: false, table_emitted: updated[i - 1]->Table_table_emitted },
                        )
                    } else {
                        updated
                    };
                    Result::Ok((header + spec_escape_key(key) + seq![' ', '=', ' '], updated2))
                }
            },
        }
    }
}

/// Everything written before a value of type `t`: the array type check,
/// then the walk of `s_emit_key_rec` over the whole chain. Returns the
/// written text, the chain afterwards (a failed walk keeps a freshly
/// resolved array type), and the outcome.
pub open spec fn s_emit_key(frames: Seq<FrameV>, t: Ty) -> (Seq<char>, Seq<FrameV>, Result<
    (),
    Error,
>) {
    match s_array_type(frames, t) {
        Result::Err(e) => (Seq::empty(), frames, Result::Err(e)),
        Result::Ok(frames1) => match s_emit_key_rec(frames1, frames1.len() as int) {
            Result::Err(e) => (Seq::empty(), frames1, Result::Err(e)),
            Result::Ok(p) => (p.0, p.1, Result::Ok(())),
        },
    }
}

/// Writing one scalar token of type `t` with rendering `text`: key work,
/// the token, and a newline when directly inside a table.
pub open spec fn s_display(st: SerView, t: Ty, text: Seq<char>) -> (SerView, Result<(), Error>) {
    let (w, updated, r) = s_emit_key(st.frames, t);
    match r {
        Result::Err(e) => (SerView { frames: updated, ..st }, Result::Err(e)),
        Result::Ok(_) => {
            let nl: Seq<char> = if updated.len() > 0 && updated.last() is Table {
                seq!['\n']
            } else {
                Seq::empty()
            };
            (SerView { out: st.out + w + text + nl, frames: updated, dt: st.dt }, Result::Ok(()))
        },
    }
}

/// The rendering of a boolean token.
pub open spec fn s_bool_text(v: bool) -> Seq<char> {
    if v {
        seq!['t', 'r', 'u', 'e']
    } else {
        seq!['f', 'a', 'l', 's', 'e']
    }
}

/// A decimal digit.
pub open spec fn is_digit(c: char) -> bool {
    48 <= c as u32 && c as u32 <= 57
}

/// A float rendering that is lexically an integer: digits only, after an
/// optional leading minus sign.
pub open spec fn is_int_numeral(s: Seq<char>) -> bool {
    s.len() > 0 && (if s[0] == '-' {
        s.len() > 1 && forall|i: int| 1 <= i < s.len() ==> is_digit(#[trigger] s[i])
    } else {
        forall|i: int| 0 <= i < s.len() ==> is_digit(#[trigger] s[i])
    })
}

/// The written form of a float: the rendering itself, with `.0` appended
/// when it would otherwise read as an integer.
pub open spec fn spec_float_token(repr: Seq<char>) -> Seq<char> {
    if is_int_numeral(repr) {
        repr + seq!['.', '0']
    } else {
        repr
    }
}

/// Marks the innermost frame as no longer expecting its first value: the
/// bookkeeping done when a value has been fully written.
pub open spec fn s_complete(st: SerView) -> SerView {
    if st.frames.len() == 0 {
        st
    } else {
        let last = st.frames.len() - 1;
        match st.frames[last] {
            FrameV::Table { key, first, table_emitted } => SerView {
                frames: st.frames.update(
                    last,
                    FrameV::Table { key, first: false, table_emitted },
                ),
                ..st
            },
            FrameV::Array { first, ty } => SerView {
                frames: st.frames.update(last, FrameV::Array { first: false, ty }),
                ..st
            },
        }
    }
}

/// A successfully written scalar of type `t` with token `text`: the
/// display step followed by completion bookkeeping. Inside the datetime
/// aggregate every scalar except a string is rejected.
pub open spec fn s_scalar(st: SerView, t: Ty, text: Seq<char>) -> (SerView, Result<(), Error>) {
    if st.dt {
        (st, Result::Err(Error::DateInvalid))
    } else {
        let (st2, r) = s_display(st, t, text);
        match r {
            Result::Ok(_) => (s_complete(st2), Result::Ok(())),
            Result::Err(e) => (st2, Result::Err(e)),
        }
    }
}

/// A string event: inside the datetime aggregate it is the datetime's
/// rendering, written bare; otherwise a quoted string scalar.
pub open spec fn s_ser_str(st: SerView, s: Seq<char>) -> (SerView, Result<(), Error>) {
    if st.dt {
        s_display(st, Ty::Datetime, s)
    } else {
        s_scalar(st, Ty::Str, spec_quoted(s))
    }
}

/// An absent value: dropped silently as a table field, rejected anywhere
/// else.
pub open spec fn s_ser_none(st: SerView) -> (SerView, Result<(), Error>) {
    if st.dt {
        (st, Result::Err(Error::DateInvalid))
    } else if st.frames.len() > 0 && st.frames.last() is Table {
        (st, Result::Ok(()))
    } else {
        (st, Result::Err(Error::UnsupportedNone))
    }
}

/// Opening a sequence: the element type of an enclosing array resolves to
/// `array`, and a fresh array frame with no resolved type is pushed.
pub open spec fn s_begin_seq(st: SerView) -> (SerView, Result<(), Error>) {
    if st.dt {
        (st, Result::Err(Error::DateInvalid))
    } else {
        match s_array_type(st.frames, Ty::Array) {
            Result::Err(e) => (st, Result::Err(e)),
            Result::Ok(f) => (
                SerView {
                    frames: f.push(FrameV::Array { first: true, ty: Option::None }),
                    ..st
                },
                Result::Ok(()),
            ),
        }
    }
}

/// Opening a table: a fresh table frame with no key and nothing written.
pub open spec fn s_begin_table(st: SerView) -> (SerView, Result<(), Error>) {
    if st.dt {
        (st, Result::Err(Error::DateInvalid))
    } else {
        match s_array_type(st.frames, Ty::Table) {
            Result::Err(e) => (st, Result::Err(e)),
            Result::Ok(f) => (
                SerView {
                    frames: f.push(
                        FrameV::Table {
                            key: Seq::empty(),
                            first: true,
                            table_emitted: false,
                        },
                    ),
                    ..st
                },
                Result::Ok(()),
            ),
        }
    }
}

/// Opening a named aggregate: the reserved sentinel name switches the
/// engine into datetime mode, any other name opens an ordinary table.
pub open spec fn s_begin_struct(st: SerView, name: Seq<char>) -> (SerView, Result<(), Error>) {
    if st.dt {
        (st, Result::Err(Error::DateInvalid))
    } else if name == DATETIME_SENTINEL@ {
        match s_array_type(st.frames, Ty::Datetime) {
            Result::Err(e) => (st, Result::Err(e)),
            Result::Ok(f) => (SerView { frames: f, dt: true, ..st }, Result::Ok(())),
        }
    } else {
        s_begin_table(st)
    }
}

/// Announcing the key of the next table field. A key with a newline is
/// rejected and leaves the stored key cleared; inside the datetime
/// aggregate only the sentinel field name is accepted.
pub open spec fn s_ser_key(st: SerView, k: Seq<char>) -> (SerView, Result<(), Error>) {
    if st.dt {
        if k == DATETIME_SENTINEL@ {
            (st, Result::Ok(()))
        } else {
            (st, Result::Err(Error::DateInvalid))
        }
    } else if st.frames.len() == 0 {
        (st, Result::Err(Error::UnsupportedType))
    } else {
        let last = st.frames.len() - 1;
        match st.frames[last] {
            FrameV::Table { key, first, table_emitted } => {
                if spec_contains_char(k, '\n') {
                    (
                        SerView {
                            frames: st.frames.update(
                                last,
                                FrameV::Table { key: Seq::empty(), first, table_emitted },
                            ),
                            ..st
                        },
                        Result::Err(Error::KeyNewline),
                    )
                } else {
                    (
                        SerView {
                            frames: st.frames.update(
                                last,
                                FrameV::Table { key: k, first, table_emitted },
                            ),
                            ..st
                        },
                        Result::Ok(()),
                    )
                }
            },
            _ => (st, Result::Err(Error::UnsupportedType)),
        }
    }
}

/// Closing a sequence. A resolved table type means each element already
/// wrote its own header; a resolved scalar type closes the inline array;
/// no resolved type means no element was seen, and `[]` is written under
/// the pending key. On success the enclosing frame's bookkeeping is done.
pub open spec fn s_end_seq(st: SerView) -> (SerView, Result<(), Error>) {
    if st.dt {
        (st, Result::Err(Error::DateInvalid))
    } else if !(st.frames.len() > 0 && st.frames.last() is Array) {
        (st, Result::Err(Error::UnsupportedType))
    } else {
        let ty = st.frames.last()->Array_ty;
        let popped = st.frames.drop_last();
        match ty {
            Option::Some(Ty::Table) => (
                s_complete(SerView { frames: popped, ..st }),
                Result::Ok(()),
            ),
            Option::Some(_) => {
                let nl: Seq<char> = if popped.len() > 0 && popped.last() is Table {
                    seq!['\n']
                } else {
                    Seq::empty()
                };
                (
                    s_complete(
                        SerView { out: st.out + seq![']'] + nl, frames: popped, ..st },
                    ),
                    Result::Ok(()),
                )
            },
            Option::None => {
                let (w, f, r) = s_emit_key(popped, Ty::Array);
                match r {
                    Result::Err(e) => (SerView { frames: f, ..st }, Result::Err(e)),
                    Result::Ok(_) => {
                        let nl: Seq<char> = if f.len() > 0 && f.last() is Table {
                            seq!['\n']
                        } else {
                            Seq::empty()
                        };
                        (
                            s_complete(
                                SerView { out: st.out + w + seq!['[', ']'] + nl, frames: f, ..st },
                            ),
                            Result::Ok(()),
                        )
                    },
                }
            },
        }
    }
}

/// Closing a table or the datetime aggregate. A table that never wrote a
/// field still gets its (empty) header, so empty tables appear in the
/// document. On success the enclosing frame's bookkeeping is done.
pub open spec fn s_end_table(st: SerView) -> (SerView, Result<(), Error>) {
    if st.dt {
        (s_complete(SerView { dt: false, ..st }), Result::Ok(()))
    } else if !(st.frames.len() > 0 && st.frames.last() is Table) {
        (st, Result::Err(Error::UnsupportedType))
    } else {
        let first = st.frames.last()->Table_first;
        let popped = st.frames.drop_last();
        if first {
            let p = s_table_header(popped, popped.len() as int);
            (
                s_complete(SerView { out: st.out + p.0, frames: p.1, ..st }),
                Result::Ok(()),
            )
        } else {
            (s_complete(SerView { frames: popped, ..st }), Result::Ok(()))
        }
    }
}

// ---------------------------------------------------------------------------
// Facts about the transition functions.
// ---------------------------------------------------------------------------
/// `s_key_part` leaves the chain's length and every frame from `i` on
/// unchanged (it only marks table frames strictly below `i`).
pub proof fn lemma_key_part_frames(frames: Seq<FrameV>, i: int)
    requires
        0 <= i <= frames.len(),
    ensures
        s_key_part(frames, i).1.len() == frames.len(),
        forall|j: int| i <= j < frames.len() ==> s_key_part(frames, i).1[j] == frames[j],
    decreases i,
{
    if i <= 0 {
    } else {
        match frames[i - 1] {
            FrameV::Array { .. } => {
                lemma_key_part_frames(frames, i - 1);
            },
            FrameV::Table { key, first, table_emitted } => {
                let marked = frames.update(
                    i - 1,
                    FrameV::Table { key, first, table_emitted: true },
                );
                lemma_key_part_frames(marked, i - 1);
                assert forall|j: int| i <= j < frames.len() implies s_key_part(frames, i).1[j]
                    == frames[j] by {
                    assert(s_key_part(frames, i).1[j] == s_key_part(marked, i - 1).1[j]);
                    assert(s_key_part(marked, i - 1).1[j] == marked[j]);
                    assert(marked[j] == frames[j]);
                }
            },
        }
    }
}

/// The same for `s_table_header` over `frames[..i]`.
pub proof fn lemma_table_header_frames(frames: Seq<FrameV>, i: int)
    requires
        0 <= i <= frames.len(),
    ensures
        s_table_header(frames, i).1.len() == frames.len(),
        forall|j: int| i <= j < frames.len() ==> s_table_header(frames, i).1[j] == frames[j],
{
    if i > 0 {
        lemma_key_part_frames(frames, i);
    }
}

proof fn lemma_frames_view_update(s: Seq<Frame>, i: int, x: Frame)
    requires
        0 <= i < s.len(),
    ensures
        frames_view(s.update(i, x)) == frames_view(s).update(i, x@),
{
    assert(frames_view(s.update(i, x)) =~= frames_view(s).update(i, x@));
}

proof fn lemma_frames_view_push(s: Seq<Frame>, x: Frame)
    ensures
        frames_view(s.push(x)) == frames_view(s).push(x@),
{
    assert(frames_view(s.push(x)) =~= frames_view(s).push(x@));
}

proof fn lemma_frames_view_drop(s: Seq<Frame>)
    requires
        s.len() > 0,
    ensures
        frames_view(s.drop_last()) == frames_view(s).drop_last(),
{
    assert(frames_view(s.drop_last()) =~= frames_view(s).drop_last());
}

// ---------------------------------------------------------------------------
// The engine's internal emission steps.
// ---------------------------------------------------------------------------
impl Serializer {
    /// Creates a new serializer with an empty output buffer at the
    /// document root.
    pub fn new() -> (s: Serializer)
        ensures
            s@.out == Seq::<char>::empty(),
            s@.frames == Seq::<FrameV>::empty(),
            s@.dt == false,
    {
        let s = Serializer { dst: Vec::new(), frames: Vec::new(), dt: false };
        proof {
            assert(s@.frames =~= Seq::<FrameV>::empty());
        }
        s
    }

    /// Writes the separator that precedes an array element: `[` before the
    /// first element, `, ` before every later one.
    pub fn emit_array(&mut self, first: bool)
        ensures
            final(self)@.out == old(self)@.out + s_sep(first),
            final(self)@.frames == old(self)@.frames,
            final(self)@.dt == old(self)@.dt,
    {
        if first {
            self.dst.push('[');
        } else {
            self.dst.push(',');
            self.dst.push(' ');
        }
        proof {
            assert(final(self)@.out =~= old(self)@.out + s_sep(first));
        }
    }

    /// Writes a string as a quoted, escaped TOML string.
    pub fn emit_str(&mut self, value: &str)
        ensures
            final(self)@.out == old(self)@.out + spec_quoted(value@),
            final(self)@.frames == old(self)@.frames,
            final(self)@.dt == old(self)@.dt,
    {
        self.dst.push('"');
        let len = value.unicode_len();
        let mut i: usize = 0;
        while i < len
            invariant
                i <= len,
                len == value@.len(),
                self.dst@ == old(self).dst@ + seq!['"'] + spec_escaped(value@.take(i as int)),
                self.frames == old(self).frames,
                self.dt == old(self).dt,
            decreases len - i,
        {
            let ghost pre = self.dst@;
            let c = value.get_char(i);
            if c == '\u{8}' {
                self.dst.push('\\');
                self.dst.push('b');
            } else if c == '\u{9}' {
                self.dst.push('\\');
                self.dst.push('t');
            } else if c == '\u{a}' {
                self.dst.push('\\');
                self.dst.push('n');
            } else if c == '\u{c}' {
                self.dst.push('\\');
                self.dst.push('f');
            } else if c == '\u{d}' {
                self.dst.push('\\');
                self.dst.push('r');
            } else if c == '"' {
                self.dst.push('\\');
                self.dst.push('"');
            } else if c == '\\' {
                self.dst.push('\\');
                self.dst.push('\\');
            } else {
                let n = c as u32;
                if n < 0x1f {
                    self.dst.push('\\');
                    self.dst.push('u');
                    self.dst.push('0');
                    self.dst.push('0');
                    if n < 10 {
                        self.dst.push('0');
                    }
                    push_u64_text(&mut self.dst, n as u64);
                    proof {
                        if n >= 10 {
                            assert(dec_digits(n as nat) == dec_digits(n as nat / 10) + seq![
                                crate::num::digit_char(n as nat % 10),
                            ]);
                            assert(dec_digits(n as nat).len() == 2);
                        } else {
                            assert(dec_digits(n as nat).len() == 1);
                        }
                        assert(self.dst@ =~= pre + esc_char(c));
                    }
                } else {
                    self.dst.push(c);
                }
            }
            proof {
                assert(self.dst@ =~= pre + esc_char(c));
                assert(value@.take(i + 1).drop_last() =~= value@.take(i as int));
                assert(value@.take(i + 1).last() == value@[i as int]);
                assert(spec_escaped(value@.take(i + 1)) == spec_escaped(value@.take(i as int))
                    + esc_char(value@[i as int]));
                assert(self.dst@ =~= old(self).dst@ + seq!['"'] + spec_escaped(
                    value@.take(i + 1),
                ));
            }
            i = i + 1;
        }
        self.dst.push('"');
        proof {
            assert(value@.take(len as int) =~= value@);
            assert(final(self)@.out =~= old(self)@.out + spec_quoted(value@));
        }
    }

    /// Writes a key: bare when it is nonempty and all its characters are
    /// in the bare class, quoted otherwise (so the empty key is written
    /// as `""`).
    pub fn escape_key(&mut self, key: &str)
        ensures
            final(self)@.out == old(self)@.out + spec_escape_key(key@),
            final(self)@.frames == old(self)@.frames,
            final(self)@.dt == old(self)@.dt,
    {
        let len = key.unicode_len();
        let mut i: usize = 0;
        let mut bare = len > 0;
        while i < len
            invariant
                i <= len,
                len == key@.len(),
                bare == (len > 0 && (forall|j: int|
                    0 <= j < i ==> is_bare_char(#[trigger] key@[j]))),
            decreases len - i,
        {
            let c = key.get_char(i);
            let n = c as u32;
            let ok = (97 <= n && n <= 122) || (65 <= n && n <= 90) || (48 <= n && n <= 57) || n
                == 45 || n == 95;
            if !ok {
                bare = false;
            }
            i = i + 1;
        }
        if bare {
            push_chars(&mut self.dst, key);
        } else {
            self.emit_str(key);
        }
    }

    /// Walks the chain `frames[..i]` writing the dotted key path of a
    /// header and marking every traversed table frame. Returns whether the
    /// walk reached the root without writing any key.
    pub fn emit_key_part(&mut self, i: usize) -> (root: bool)
        requires
            i <= old(self).frames@.len(),
        ensures
            final(self)@.out == old(self)@.out + s_key_part(old(self)@.frames, i as int).0,
            final(self)@.frames == s_key_part(old(self)@.frames, i as int).1,
            final(self)@.dt == old(self)@.dt,
            root == s_key_part(old(self)@.frames, i as int).2,
        decreases i,
    {
        if i == 0 {
            return true;
        }
        let (is_tab, key, first_b) = match &self.frames[i - 1] {
            Frame::Array { .. } => (false, String::new(), false),
            Frame::Table { key, first, .. } => (true, key.clone(), *first),
        };
        if !is_tab {
            return self.emit_key_part(i - 1);
        }
        let key2 = key.clone();
        self.frames.set(i - 1, Frame::Table { key: key2, first: first_b, table_emitted: true });
        proof {
            lemma_frames_view_update(
                old(self).frames@,
                i - 1,
                self.frames@[i - 1],
            );
            assert(frames_view(self.frames@) =~= old(self)@.frames.update(
                i - 1,
                FrameV::Table {
                    key: old(self)@.frames[i - 1]->Table_key,
                    first: first_b,
                    table_emitted: true,
                },
            ));
        }
        let root = self.emit_key_part(i - 1);
        if !root {
            self.dst.push('.');
        }
        self.escape_key(key.as_str());
        proof {
            assert(final(self)@.out =~= old(self)@.out + s_key_part(
                old(self)@.frames,
                i as int,
            ).0);
        }
        false
    }

    /// Writes a table header (`[path]` or `[[path]]`) over the chain
    /// `frames[..i]`; at the document root nothing is written.
    pub fn emit_table_header(&mut self, i: usize)
        requires
            i <= old(self).frames@.len(),
        ensures
            final(self)@.out == old(self)@.out + s_table_header(old(self)@.frames, i as int).0,
            final(self)@.frames == s_table_header(old(self)@.frames, i as int).1,
            final(self)@.dt == old(self)@.dt,
    {
        if i == 0 {
            return ;
        }
        let aot = match &self.frames[i - 1] {
            Frame::Array { .. } => true,
            Frame::Table { .. } => false,
        };
        self.dst.push('[');
        if aot {
            self.dst.push('[');
        }
        let _root = self.emit_key_part(i);
        if aot {
            self.dst.push(']');
        }
        self.dst.push(']');
        self.dst.push('\n');
        proof {
            assert(final(self)@.out =~= old(self)@.out + s_table_header(
                old(self)@.frames,
                i as int,
            ).0);
        }
    }

    /// The walk performed before a value is written at chain depth `i`:
    /// array separators, a table's first-field header, and `key = `.
    pub fn emit_key_(&mut self, i: usize) -> (r: Result<(), Error>)
        requires
            i <= old(self).frames@.len(),
        ensures
            (match s_emit_key_rec(old(self)@.frames, i as int) {
                Result::Ok(p) => r == Result::<(), Error>::Ok(()) && final(self)@.out == old(
                    self,
                )@.out + p.0 && final(self)@.frames == p.1 && final(self)@.dt == old(self)@.dt,
                Result::Err(e) => r == Result::<(), Error>::Err(e) && final(self)@ == old(self)@,
            }),
        decreases i,
    {
        if i == 0 {
            return Result::Err(Error::UnsupportedType);
        }
        proof {
            assert(old(self)@.frames[i - 1] == old(self).frames@[i - 1]@);
        }
        let (is_tab, key, first_b, emitted_b) = match &self.frames[i - 1] {
            Frame::Array { first, .. } => (false, String::new(), *first, false),
            Frame::Table { key, first, table_emitted } => (
                true,
                key.clone(),
                *first,
                *table_emitted,
            ),
        };
        if !is_tab {
            if first_b {
                let res = self.emit_key_(i - 1);
                match res {
                    Result::Ok(_) => {},
                    Result::Err(e) => {
                        return Result::Err(e);
                    },
                }
            }
            self.emit_array(first_b);
            proof {
                match s_emit_key_rec(old(self)@.frames, i as int) {
                    Result::Ok(p) => {
                        assert(final(self)@.out =~= old(self)@.out + p.0);
                    },
                    Result::Err(_) => {},
                }
            }
            Result::Ok(())
        } else {
            if emitted_b {
                return Result::Err(Error::ValueAfterTable);
            }
            if first_b {
                self.emit_table_header(i - 1);
                proof {
                    lemma_table_header_frames(old(self)@.frames, i - 1);
                }
                let ghost mid_frames = self.frames@;
                let key2 = key.clone();
                self.frames.set(
                    i - 1,
                    Frame::Table { key: key2, first: false, table_emitted: false },
                );
                proof {
                    lemma_frames_view_update(mid_frames, i - 1, self.frames@[i - 1]);
                }
            }
            self.escape_key(key.as_str());
            self.dst.push(' ');
            self.dst.push('=');
            self.dst.push(' ');
            proof {
                match s_emit_key_rec(old(self)@.frames, i as int) {
                    Result::Ok(p) => {
                        assert(final(self)@.out =~= old(self)@.out + p.0);
                        assert(final(self)@.frames =~= p.1);
                    },
                    Result::Err(_) => {},
                }
            }
            Result::Ok(())
        }
    }
}

// ---------------------------------------------------------------------------
// The consumer side of the producer protocol.
// ---------------------------------------------------------------------------
impl Serializer {
    /// Resolves the element type of an enclosing array against `t`.
    pub fn array_type(&mut self, t: Ty) -> (r: Result<(), Error>)
        ensures
            (match s_array_type(old(self)@.frames, t) {
                Result::Ok(f) => r == Result::<(), Error>::Ok(()) && final(self)@.out == old(
                    self,
                )@.out && final(self)@.frames == f && final(self)@.dt == old(self)@.dt,
                Result::Err(e) => r == Result::<(), Error>::Err(e) && final(self)@ == old(self)@,
            }),
    {
        let n = self.frames.len();
        if n == 0 {
            return Result::Ok(());
        }
        let (is_arr, first_b, ty_o) = match &self.frames[n - 1] {
            Frame::Array { first, ty } => (true, *first, *ty),
            Frame::Table { .. } => (false, false, Option::None),
        };
        if !is_arr {
            return Result::Ok(());
        }
        match ty_o {
            Option::Some(prev) => {
                if prev == t {
                    Result::Ok(())
                } else {
                    Result::Err(Error::ArrayMixedType)
                }
            },
            Option::None => {
                let ghost mid = self.frames@;
                self.frames.set(n - 1, Frame::Array { first: first_b, ty: Option::Some(t) });
                proof {
                    lemma_frames_view_update(mid, n - 1, self.frames@[n - 1]);
                    assert(final(self)@.frames =~= s_array_type(old(self)@.frames, t)->Ok_0);
                }
                Result::Ok(())
            },
        }
    }

    /// The whole preparation for writing a value of type `t`: the array
    /// type check followed by the chain walk.
    pub fn emit_key(&mut self, t: Ty) -> (r: Result<(), Error>)
        ensures
            final(self)@.out == old(self)@.out + s_emit_key(old(self)@.frames, t).0,
            final(self)@.frames == s_emit_key(old(self)@.frames, t).1,
            final(self)@.dt == old(self)@.dt,
            r == s_emit_key(old(self)@.frames, t).2,
    {
        let res = self.array_type(t);
        match res {
            Result::Err(e) => {
                return Result::Err(e);
            },
            Result::Ok(_) => {},
        }
        proof {
            assert(self@.frames.len() == old(self)@.frames.len());
            assert(self@.frames.len() == self.frames@.len());
        }
        let n = self.frames.len();
        self.emit_key_(n)
    }

    /// Writes one scalar token of type `t`, rendered as `text`, with the
    /// newline a table field ends with. Does no completion bookkeeping.
    pub fn display(&mut self, text: &str, t: Ty) -> (r: Result<(), Error>)
        ensures
            final(self)@ == s_display(old(self)@, t, text@).0,
            r == s_display(old(self)@, t, text@).1,
    {
        let res = self.emit_key(t);
        match res {
            Result::Err(e) => {
                return Result::Err(e);
            },
            Result::Ok(_) => {},
        }
        push_chars(&mut self.dst, text);
        self.push_table_newline();
        proof {
            assert(final(self)@ =~= s_display(old(self)@, t, text@).0);
        }
        Result::Ok(())
    }

    /// Writes the newline that ends a `key = value` line when the current
    /// context is a table.
    fn push_table_newline(&mut self)
        ensures
            final(self)@.frames == old(self)@.frames,
            final(self)@.dt == old(self)@.dt,
            final(self)@.out == old(self)@.out + (if old(self)@.frames.len() > 0 && old(
                self,
            )@.frames.last() is Table {
                seq!['\n']
            } else {
                Seq::<char>::empty()
            }),
    {
        let n = self.frames.len();
        let is_tab = if n == 0 {
            false
        } else {
            match &self.frames[n - 1] {
                Frame::Table { .. } => true,
                Frame::Array { .. } => false,
            }
        };
        if is_tab {
            self.dst.push('\n');
        }
        proof {
            assert(final(self)@.out =~= old(self)@.out + (if old(self)@.frames.len() > 0 && old(
                self,
            )@.frames.last() is Table {
                seq!['\n']
            } else {
                Seq::<char>::empty()
            }));
        }
    }

    /// Records that a value has been fully written under the innermost
    /// frame.
    fn complete_value(&mut self)
        ensures
            final(self)@ == s_complete(old(self)@),
    {
        let n = self.frames.len();
        if n == 0 {
            return ;
        }
        let ghost mid = self.frames@;
        let replacement = match &self.frames[n - 1] {
            Frame::Table { key, first, table_emitted } => Frame::Table {
                key: key.clone(),
                first: false,
                table_emitted: *table_emitted,
            },
            Frame::Array { first, ty } => Frame::Array { first: false, ty: *ty },
        };
        self.frames.set(n - 1, replacement);
        proof {
            lemma_frames_view_update(mid, n - 1, self.frames@[n - 1]);
            assert(final(self)@ =~= s_complete(old(self)@));
        }
    }

    /// Emits a boolean scalar.
    pub fn serialize_bool(&mut self, v: bool) -> (r: Result<(), Error>)
        ensures
            final(self)@ == s_scalar(old(self)@, Ty::Bool, s_bool_text(v)).0,
            r == s_scalar(old(self)@, Ty::Bool, s_bool_text(v)).1,
    {
        if self.dt {
            return Result::Err(Error::DateInvalid);
        }
        proof {
            reveal_strlit("true");
            reveal_strlit("false");
            assert("true"@ =~= s_bool_text(true));
            assert("false"@ =~= s_bool_text(false));
        }
        let res = if v {
            self.display("true", Ty::Bool)
        } else {
            self.display("false", Ty::Bool)
        };
        match res {
            Result::Err(e) => Result::Err(e),
            Result::Ok(_) => {
                self.complete_value();
                Result::Ok(())
            },
        }
    }

    /// Emits an integer scalar.
    pub fn serialize_i64(&mut self, v: i64) -> (r: Result<(), Error>)
        ensures
            final(self)@ == s_scalar(old(self)@, Ty::Integer, int_text(v as int)).0,
            r == s_scalar(old(self)@, Ty::Integer, int_text(v as int)).1,
    {
        if self.dt {
            return Result::Err(Error::DateInvalid);
        }
        let res = self.emit_key(Ty::Integer);
        match res {
            Result::Err(e) => {
                return Result::Err(e);
            },
            Result::Ok(_) => {},
        }
        push_i64_text(&mut self.dst, v);
        self.push_table_newline();
        self.complete_value();
        proof {
            assert(final(self)@ =~= s_scalar(old(self)@, Ty::Integer, int_text(v as int)).0);
        }
        Result::Ok(())
    }

    /// Emits an unsigned integer scalar.
    pub fn serialize_u64(&mut self, v: u64) -> (r: Result<(), Error>)
        ensures
            final(self)@ == s_scalar(old(self)@, Ty::Integer, dec_digits(v as nat)).0,
            r == s_scalar(old(self)@, Ty::Integer, dec_digits(v as nat)).1,
    {
        if self.dt {
            return Result::Err(Error::DateInvalid);
        }
        let res = self.emit_key(Ty::Integer);
        match res {
            Result::Err(e) => {
                return Result::Err(e);
            },
            Result::Ok(_) => {},
        }
        push_u64_text(&mut self.dst, v);
        self.push_table_newline();
        self.complete_value();
        proof {
            assert(final(self)@ =~= s_scalar(old(self)@, Ty::Integer, dec_digits(v as nat)).0);
        }
        Result::Ok(())
    }

    /// Emits a string: inside the datetime aggregate it is the datetime's
    /// rendering, otherwise a quoted string scalar.
    pub fn serialize_str(&mut self, value: &str) -> (r: Result<(), Error>)
        ensures
            final(self)@ == s_ser_str(old(self)@, value@).0,
            r == s_ser_str(old(self)@, value@).1,
    {
        if self.dt {
            return self.display(value, Ty::Datetime);
        }
        let res = self.emit_key(Ty::Str);
        match res {
            Result::Err(e) => {
                return Result::Err(e);
            },
            Result::Ok(_) => {},
        }
        self.emit_str(value);
        self.push_table_newline();
        self.complete_value();
        proof {
            assert(final(self)@ =~= s_ser_str(old(self)@, value@).0);
        }
        Result::Ok(())
    }

    /// Emits a float scalar from its decimal rendering (the text a
    /// float's default formatter produced, which never uses exponent
    /// notation), appending `.0` when the rendering would otherwise read
    /// as an integer — for such renderings the formatted value had no
    /// fractional part, and renderings like `inf` or `NaN` pass through
    /// unchanged.
    pub fn serialize_float(&mut self, repr: &str) -> (r: Result<(), Error>)
        ensures
            final(self)@ == s_scalar(old(self)@, Ty::Float, spec_float_token(repr@)).0,
            r == s_scalar(old(self)@, Ty::Float, spec_float_token(repr@)).1,
    {
        if self.dt {
            return Result::Err(Error::DateInvalid);
        }
        let res = self.emit_key(Ty::Float);
        match res {
            Result::Err(e) => {
                return Result::Err(e);
            },
            Result::Ok(_) => {},
        }
        push_chars(&mut self.dst, repr);
        if is_integral_numeral(repr) {
            self.dst.push('.');
            self.dst.push('0');
        }
        self.push_table_newline();
        self.complete_value();
        proof {
            assert(final(self)@ =~= s_scalar(old(self)@, Ty::Float, spec_float_token(repr@)).0);
        }
        Result::Ok(())
    }

    /// Emits a datetime scalar, written bare in its rendered form.
    pub fn serialize_datetime(&mut self, value: &Datetime) -> (r: Result<(), Error>)
        ensures
            final(self)@ == s_scalar(old(self)@, Ty::Datetime, value.text@).0,
            r == s_scalar(old(self)@, Ty::Datetime, value.text@).1,
    {
        if self.dt {
            return Result::Err(Error::DateInvalid);
        }
        let res = self.display(value.as_str(), Ty::Datetime);
        match res {
            Result::Err(e) => Result::Err(e),
            Result::Ok(_) => {
                self.complete_value();
                Result::Ok(())
            },
        }
    }

    /// Announces an absent value: dropped silently as a table field,
    /// rejected at the root or inside a sequence.
    pub fn serialize_none(&mut self) -> (r: Result<(), Error>)
        ensures
            final(self)@ == s_ser_none(old(self)@).0,
            r == s_ser_none(old(self)@).1,
    {
        if self.dt {
            return Result::Err(Error::DateInvalid);
        }
        let n = self.frames.len();
        if n == 0 {
            return Result::Err(Error::UnsupportedNone);
        }
        match &self.frames[n - 1] {
            Frame::Table { .. } => Result::Ok(()),
            Frame::Array { .. } => Result::Err(Error::UnsupportedNone),
        }
    }

    /// Opens a sequence.
    pub fn begin_seq(&mut self) -> (r: Result<(), Error>)
        ensures
            final(self)@ == s_begin_seq(old(self)@).0,
            r == s_begin_seq(old(self)@).1,
    {
        if self.dt {
            return Result::Err(Error::DateInvalid);
        }
        let res = self.array_type(Ty::Array);
        match res {
            Result::Err(e) => {
                return Result::Err(e);
            },
            Result::Ok(_) => {},
        }
        let ghost mid = self.frames@;
        self.frames.push(Frame::Array { first: true, ty: Option::None });
        proof {
            lemma_frames_view_push(mid, Frame::Array { first: true, ty: Option::None });
            assert(final(self)@ =~= s_begin_seq(old(self)@).0);
        }
        Result::Ok(())
    }

    /// Opens a table.
    pub fn begin_table(&mut self) -> (r: Result<(), Error>)
        ensures
            final(self)@ == s_begin_table(old(self)@).0,
            r == s_begin_table(old(self)@).1,
    {
        if self.dt {
            return Result::Err(Error::DateInvalid);
        }
        let res = self.array_type(Ty::Table);
        match res {
            Result::Err(e) => {
                return Result::Err(e);
            },
            Result::Ok(_) => {},
        }
        let ghost mid = self.frames@;
        self.frames.push(Frame::Table { key: String::new(), first: true, table_emitted: false });
        proof {
            lemma_frames_view_push(mid, self.frames@.last());
            assert(final(self)@ =~= s_begin_table(old(self)@).0);
        }
        Result::Ok(())
    }

    /// Opens a named aggregate: the reserved sentinel name enters datetime
    /// mode, any other name opens an ordinary table.
    pub fn begin_struct(&mut self, name: &str) -> (r: Result<(), Error>)
        ensures
            final(self)@ == s_begin_struct(old(self)@, name@).0,
            r == s_begin_struct(old(self)@, name@).1,
    {
        if self.dt {
            return Result::Err(Error::DateInvalid);
        }
        if str_eq(name, DATETIME_SENTINEL) {
            let res = self.array_type(Ty::Datetime);
            match res {
                Result::Err(e) => {
                    return Result::Err(e);
                },
                Result::Ok(_) => {},
            }
            self.dt = true;
            proof {
                assert(final(self)@ =~= s_begin_struct(old(self)@, name@).0);
            }
            Result::Ok(())
        } else {
            self.begin_table()
        }
    }

    /// Announces the key of the next field of the innermost table.
    pub fn serialize_key(&mut self, key: &str) -> (r: Result<(), Error>)
        ensures
            final(self)@ == s_ser_key(old(self)@, key@).0,
            r == s_ser_key(old(self)@, key@).1,
    {
        if self.dt {
            if str_eq(key, DATETIME_SENTINEL) {
                return Result::Ok(());
            } else {
                return Result::Err(Error::DateInvalid);
            }
        }
        let n = self.frames.len();
        if n == 0 {
            return Result::Err(Error::UnsupportedType);
        }
        let (is_tab, first_b, emitted_b) = match &self.frames[n - 1] {
            Frame::Table { first, table_emitted, .. } => (true, *first, *table_emitted),
            Frame::Array { .. } => (false, false, false),
        };
        if !is_tab {
            return Result::Err(Error::UnsupportedType);
        }
        let ghost mid = self.frames@;
        if contains_char(key, '\n') {
            self.frames.set(
                n - 1,
                Frame::Table { key: String::new(), first: first_b, table_emitted: emitted_b },
            );
            proof {
                lemma_frames_view_update(mid, n - 1, self.frames@[n - 1]);
                assert(final(self)@ =~= s_ser_key(old(self)@, key@).0);
            }
            Result::Err(Error::KeyNewline)
        } else {
            let owned = String::from_str(key);
            self.frames.set(
                n - 1,
                Frame::Table { key: owned, first: first_b, table_emitted: emitted_b },
            );
            proof {
                lemma_frames_view_update(mid, n - 1, self.frames@[n - 1]);
                assert(final(self)@ =~= s_ser_key(old(self)@, key@).0);
            }
            Result::Ok(())
        }
    }

    /// Closes a sequence.
    pub fn end_seq(&mut self) -> (r: Result<(), Error>)
        ensures
            final(self)@ == s_end_seq(old(self)@).0,
            r == s_end_seq(old(self)@).1,
    {
        if self.dt {
            return Result::Err(Error::DateInvalid);
        }
        let n = self.frames.len();
        if n == 0 {
            return Result::Err(Error::UnsupportedType);
        }
        let (is_arr, ty_o) = match &self.frames[n - 1] {
            Frame::Array { ty, .. } => (true, *ty),
            Frame::Table { .. } => (false, Option::None),
        };
        if !is_arr {
            return Result::Err(Error::UnsupportedType);
        }
        let ghost mid = self.frames@;
        let _ = self.frames.pop();
        proof {
            lemma_frames_view_drop(mid);
        }
        match ty_o {
            Option::Some(Ty::Table) => {
                self.complete_value();
                proof {
                    assert(final(self)@ =~= s_end_seq(old(self)@).0);
                }
                Result::Ok(())
            },
            Option::Some(_) => {
                self.dst.push(']');
                self.push_table_newline();
                self.complete_value();
                proof {
                    assert(final(self)@ =~= s_end_seq(old(self)@).0);
                }
                Result::Ok(())
            },
            Option::None => {
                let res = self.emit_key(Ty::Array);
                match res {
                    Result::Err(e) => {
                        proof {
                            assert(final(self)@ =~= s_end_seq(old(self)@).0);
                        }
                        return Result::Err(e);
                    },
                    Result::Ok(_) => {},
                }
                self.dst.push('[');
                self.dst.push(']');
                self.push_table_newline();
                self.complete_value();
                proof {
                    assert(final(self)@ =~= s_end_seq(old(self)@).0);
                }
                Result::Ok(())
            },
        }
    }

    /// Closes a table, or leaves the datetime aggregate.
    pub fn end_table(&mut self) -> (r: Result<(), Error>)
        ensures
            final(self)@ == s_end_table(old(self)@).0,
            r == s_end_table(old(self)@).1,
    {
        if self.dt {
            self.dt = false;
            self.complete_value();
            proof {
                assert(final(self)@ =~= s_end_table(old(self)@).0);
            }
            return Result::Ok(());
        }
        let n = self.frames.len();
        if n == 0 {
            return Result::Err(Error::UnsupportedType);
        }
        let (is_tab, first_b) = match &self.frames[n - 1] {
            Frame::Table { first, .. } => (true, *first),
            Frame::Array { .. } => (false, false),
        };
        if !is_tab {
            return Result::Err(Error::UnsupportedType);
        }
        let ghost mid = self.frames@;
        let _ = self.frames.pop();
        proof {
            lemma_frames_view_drop(mid);
        }
        if first_b {
            let m = self.frames.len();
            self.emit_table_header(m);
        }
        self.complete_value();
        proof {
            assert(final(self)@ =~= s_end_table(old(self)@).0);
        }
        Result::Ok(())
    }

    /// Hands the written document text out.
    pub fn into_text(self) -> (s: String)
        ensures
            s@ == self@.out,
    {
        chars_to_string(&self.dst)
    }
}

// ---------------------------------------------------------------------------
// The Value -> protocol bridge: the value tree driving the engine, with the
// mandatory three-pass field order for tables.
// ---------------------------------------------------------------------------
/// Whether a field value belongs to the given pass of the three-pass
/// order: plain scalars first, then arrays, then tables.
pub open spec fn pass_pred(v: Value, pass: int) -> bool {
    if pass == 0 {
        spec_ty(v) != Ty::Array && spec_ty(v) != Ty::Table
    } else if pass == 1 {
        spec_ty(v) == Ty::Array
    } else {
        spec_ty(v) == Ty::Table
    }
}

/// The transition the bridge makes for the value `v` produced into state
/// `st`: exactly the composition of the engine events the bridge emits.
pub open spec fn s_produce(v: Value, st: SerView) -> (SerView, Result<(), Error>)
    decreases v, 0int, 0int,
{
    match v {
        Value::String(s) => s_ser_str(st, s@),
        Value::Integer(i) => s_scalar(st, Ty::Integer, int_text(i as int)),
        Value::Float(f) => s_scalar(st, Ty::Float, spec_float_token(f@)),
        Value::Boolean(b) => s_scalar(st, Ty::Bool, s_bool_text(b)),
        Value::Datetime(d) => s_scalar(st, Ty::Datetime, d.text@),
        Value::Array(a) => {
            let (st1, r1) = s_begin_seq(st);
            match r1 {
                Result::Err(e) => (st1, Result::Err(e)),
                Result::Ok(_) => {
                    let (st2, r2) = s_produce_elems(a@, 0, st1);
                    match r2 {
                        Result::Err(e) => (st2, Result::Err(e)),
                        Result::Ok(_) => s_end_seq(st2),
                    }
                },
            }
        },
        Value::Table(t) => {
            let (st1, r1) = s_begin_table(st);
            match r1 {
                Result::Err(e) => (st1, Result::Err(e)),
                Result::Ok(_) => {
                    let (st2, r2) = s_produce_fields(t.entries@, 0, 0, st1);
                    match r2 {
                        Result::Err(e) => (st2, Result::Err(e)),
                        Result::Ok(_) => {
                            let (st3, r3) = s_produce_fields(t.entries@, 0, 1, st2);
                            match r3 {
                                Result::Err(e) => (st3, Result::Err(e)),
                                Result::Ok(_) => {
                                    let (st4, r4) = s_produce_fields(t.entries@, 0, 2, st3);
                                    match r4 {
                                        Result::Err(e) => (st4, Result::Err(e)),
                                        Result::Ok(_) => s_end_table(st4),
                                    }
                                },
                            }
                        },
                    }
                },
            }
        },
    }
}

/// Producing the elements of an array from index `i` on.
pub open spec fn s_produce_elems(a: Seq<Value>, i: int, st: SerView) -> (SerView, Result<
    (),
    Error,
>)
    decreases a, 1int, a.len() - i,
{
    if i < 0 || i >= a.len() {
        (st, Result::Ok(()))
    } else {
        let (st1, r1) = s_produce(a[i], st);
        match r1 {
            Result::Err(e) => (st1, Result::Err(e)),
            Result::Ok(_) => s_produce_elems(a, i + 1, st1),
        }
    }
}

/// Producing the fields of one pass over a table's entries from index `i`
/// on: fields outside the pass are skipped, the others are announced by
/// key and produced.
pub open spec fn s_produce_fields(entries: Seq<(String, Value)>, i: int, pass: int, st: SerView) -> (
    SerView,
    Result<(), Error>,
)
    decreases entries, 1int, entries.len() - i,
{
    if i < 0 || i >= entries.len() {
        (st, Result::Ok(()))
    } else if !pass_pred(entries[i].1, pass) {
        s_produce_fields(entries, i + 1, pass, st)
    } else {
        let (st1, r1) = s_ser_key(st, entries[i].0@);
        match r1 {
            Result::Err(e) => (st1, Result::Err(e)),
            Result::Ok(_) => {
                let (st2, r2) = s_produce(entries[i].1, st1);
                match r2 {
                    Result::Err(e) => (st2, Result::Err(e)),
                    Result::Ok(_) => s_produce_fields(entries, i + 1, pass, st2),
                }
            },
        }
    }
}

impl Value {
    /// Drives the engine with this value: scalars map to scalar events,
    /// arrays to a sequence, and tables to a table whose fields are
    /// announced in the three-pass order (plain values, then arrays, then
    /// tables) that the header rules require.
    pub fn produce(&self, ser: &mut Serializer) -> (r: Result<(), Error>)
        ensures
            final(ser)@ == s_produce(*self, old(ser)@).0,
            r == s_produce(*self, old(ser)@).1,
        decreases *self, 0int, 0int,
    {
        match self {
            Value::String(s) => ser.serialize_str(s.as_str()),
            Value::Integer(i) => ser.serialize_i64(*i),
            Value::Float(f) => ser.serialize_float(f.as_str()),
            Value::Boolean(b) => ser.serialize_bool(*b),
            Value::Datetime(d) => ser.serialize_datetime(d),
            Value::Array(a) => {
                match ser.begin_seq() {
                    Result::Err(e) => {
                        return Result::Err(e);
                    },
                    Result::Ok(_) => {},
                }
                proof {
                    assert(decreases_to!(*self => *a));
                    assert(decreases_to!(*a => a@));
                }
                match produce_elems(a, ser) {
                    Result::Err(e) => {
                        return Result::Err(e);
                    },
                    Result::Ok(_) => {},
                }
                ser.end_seq()
            },
            Value::Table(t) => {
                match ser.begin_table() {
                    Result::Err(e) => {
                        return Result::Err(e);
                    },
                    Result::Ok(_) => {},
                }
                proof {
                    assert(decreases_to!(*self => *t));
                }
                match produce_pass(t, 0, ser) {
                    Result::Err(e) => {
                        return Result::Err(e);
                    },
                    Result::Ok(_) => {},
                }
                let ghost st2 = ser@;
                match produce_pass(t, 1, ser) {
                    Result::Err(e) => {
                        return Result::Err(e);
                    },
                    Result::Ok(_) => {},
                }
                match produce_pass(t, 2, ser) {
                    Result::Err(e) => {
                        return Result::Err(e);
                    },
                    Result::Ok(_) => {},
                }
                ser.end_table()
            },
        }
    }
}

/// Produces every element of an array in order.
fn produce_elems(a: &Vec<Value>, ser: &mut Serializer) -> (r: Result<(), Error>)
    ensures
        final(ser)@ == s_produce_elems(a@, 0, old(ser)@).0,
        r == s_produce_elems(a@, 0, old(ser)@).1,
    decreases *a, 2int, 0int,
{
    let n = a.len();
    let mut i: usize = 0;
    while i < n
        invariant
            i <= n,
            n == a@.len(),
            s_produce_elems(a@, 0, old(ser)@) == s_produce_elems(a@, i as int, ser@),
        decreases n - i,
    {
        proof {
            assert(decreases_to!(*a => a@));
            assert(decreases_to!(a@ => a@[i as int]));
        }
        let res = a[i].produce(ser);
        match res {
            Result::Err(e) => {
                return Result::Err(e);
            },
            Result::Ok(_) => {},
        }
        i = i + 1;
    }
    Result::Ok(())
}

/// Runs one pass of the three-pass field order over a table's entries.
fn produce_pass(t: &Table, pass: u8, ser: &mut Serializer) -> (r: Result<(), Error>)
    requires
        pass <= 2,
    ensures
        final(ser)@ == s_produce_fields(t.entries@, 0, pass as int, old(ser)@).0,
        r == s_produce_fields(t.entries@, 0, pass as int, old(ser)@).1,
    decreases *t, 1int, 0int,
{
    let n = t.entries.len();
    let mut i: usize = 0;
    while i < n
        invariant
            i <= n,
            n == t.entries@.len(),
            pass <= 2,
            s_produce_fields(t.entries@, 0, pass as int, old(ser)@) == s_produce_fields(
                t.entries@,
                i as int,
                pass as int,
                ser@,
            ),
        decreases n - i,
    {
        let e = &t.entries[i];
        let in_pass: bool = if pass == 0 {
            !e.1.is_array() && !e.1.is_table()
        } else if pass == 1 {
            e.1.is_array()
        } else {
            e.1.is_table()
        };
        if in_pass {
            let res = ser.serialize_key(e.0.as_str());
            match res {
                Result::Err(err) => {
                    return Result::Err(err);
                },
                Result::Ok(_) => {},
            }
            proof {
                assert(decreases_to!(*t => t.entries));
                assert(decreases_to!(t.entries => t.entries@));
                assert(decreases_to!(t.entries@ => t.entries@[i as int]));
                assert(decreases_to!(t.entries@[i as int] => t.entries@[i as int].1));
            }
            let res2 = e.1.produce(ser);
            match res2 {
                Result::Err(err) => {
                    return Result::Err(err);
                },
                Result::Ok(_) => {},
            }
        }
        i = i + 1;
    }
    Result::Ok(())
}

/// The text `to_string` produces for a value, or the error it fails with.
pub open spec fn s_to_string(v: Value) -> Result<Seq<char>, Error> {
    let st0 = SerView { out: Seq::empty(), frames: Seq::empty(), dt: false };
    let (st, r) = s_produce(v, st0);
    match r {
        Result::Ok(_) => Result::Ok(st.out),
        Result::Err(e) => Result::Err(e),
    }
}

/// Serialize the given value tree as a `String` of TOML. The walk is a
/// bounded recursion over the tree (termination is enforced by the
/// `decreases` measures throughout) and its only effect is the in-memory
/// buffer it returns.
pub fn to_string(value: &Value) -> (r: Result<String, Error>)
    ensures
        (match s_to_string(*value) {
            Result::Ok(text) => r matches Result::Ok(s) && s@ == text,
            Result::Err(e) => r == Result::<String, Error>::Err(e),
        }),
{
    let mut ser = Serializer::new();
    let res = value.produce(&mut ser);
    match res {
        Result::Ok(_) => Result::Ok(ser.into_text()),
        Result::Err(e) => Result::Err(e),
    }
}

/// Serialize the given value tree as a TOML byte vector (the UTF-8
/// encoding of the text form).
pub fn to_vec(value: &Value) -> (r: Result<Vec<u8>, Error>)
    ensures
        (match s_to_string(*value) {
            Result::Ok(text) => r matches Result::Ok(b) && b@ == vstd::utf8::encode_utf8(text),
            Result::Err(e) => r == Result::<Vec<u8>, Error>::Err(e),
        }),
{
    let res = to_string(value);
    match res {
        Result::Ok(s) => Result::Ok(s.as_str().as_bytes_vec()),
        Result::Err(e) => Result::Err(e),
    }
}

/// Whether a float rendering is lexically an integer.
fn is_integral_numeral(s: &str) -> (r: bool)
    ensures
        r == is_int_numeral(s@),
{
    let len = s.unicode_len();
    if len == 0 {
        return false;
    }
    let neg = s.get_char(0) == '-';
    if neg && len == 1 {
        return false;
    }
    let start: usize = if neg {
        1
    } else {
        0
    };
    let mut i: usize = start;
    while i < len
        invariant
            start <= i <= len,
            len == s@.len(),
            len >= 1,
            neg == (s@[0] == '-'),
            neg ==> len > 1 && start == 1,
            !neg ==> start == 0,
            forall|j: int| start <= j < i ==> is_digit(#[trigger] s@[j]),
        decreases len - i,
    {
        let c = s.get_char(i);
        let n = c as u32;
        if !(48 <= n && n <= 57) {
            return false;
        }
        i = i + 1;
    }
    true
}

} // verus!
