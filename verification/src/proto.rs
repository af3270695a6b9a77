//! A protobuf wire-format reader, and nothing more.
//!
//! Messages are walked field by field, so that a reader names the fields it
//! knows and skips the rest.
use vstd::arithmetic::power::pow;
use vstd::arithmetic::power2::pow2;
use vstd::prelude::*;

use crate::bytes::{le, read_u32, read_u64};
use crate::error::{format_error, text_with, Error, ErrorView};
use crate::float::{F32, F64};
use crate::text::{dec, dec_list, push_dec};

verus! {

/// One wire value. It borrows the caller's buffer; nothing is copied.
#[derive(Debug, Clone, Copy, PartialEq)]
pub enum Value<'a> {
    Varint(u64),
    Fixed64(u64),
    Bytes(&'a [u8]),
    Fixed32(u32),
}

/// A [`Value`] by its contents.
#[verifier::ext_equal]
pub enum ValueView {
    Varint(u64),
    Fixed64(u64),
    Bytes(Seq<u8>),
    Fixed32(u32),
}

impl<'a> View for Value<'a> {
    type V = ValueView;

    open spec fn view(&self) -> ValueView {
        match self {
            Value::Varint(v) => ValueView::Varint(*v),
            Value::Fixed64(v) => ValueView::Fixed64(*v),
            Value::Bytes(b) => ValueView::Bytes(b@),
            Value::Fixed32(v) => ValueView::Fixed32(*v),
        }
    }
}

impl ValueView {
    /// The value as an error message shows it.
    pub open spec fn shown(self) -> Seq<char> {
        match self {
            ValueView::Varint(v) => "Varint("@ + dec(v as nat) + ")"@,
            ValueView::Fixed64(v) => "Fixed64("@ + dec(v as nat) + ")"@,
            ValueView::Bytes(b) => "Bytes("@ + dec_list(b.map_values(|x: u8| x as nat)) + ")"@,
            ValueView::Fixed32(v) => "Fixed32("@ + dec(v as nat) + ")"@,
        }
    }

    /// A varint.
    pub open spec fn to_u64(self) -> Result<u64, ErrorView> {
        match self {
            ValueView::Varint(v) => Ok(v),
            _ => Err(ErrorView::Format("expected a varint, found "@ + self.shown())),
        }
    }

    /// A varint as a truth value.
    pub open spec fn to_bool(self) -> Result<bool, ErrorView> {
        match self.to_u64() {
            Ok(v) => Ok(v != 0),
            Err(e) => Err(e),
        }
    }

    /// A binary32 number, by its bits or by the low bits of a varint.
    pub open spec fn to_f32(self) -> Result<F32, ErrorView> {
        match self {
            ValueView::Fixed32(v) => Ok(F32 { bits: v }),
            ValueView::Varint(v) => Ok(F32 { bits: (v % 0x1_0000_0000) as u32 }),
            _ => Err(ErrorView::Format("expected a fixed32 float, found "@ + self.shown())),
        }
    }

    /// A binary64 number, or a binary32 number widened.
    pub open spec fn to_f64(self) -> Result<F64, ErrorView> {
        match self {
            ValueView::Fixed64(v) => Ok(F64 { bits: v }),
            ValueView::Fixed32(v) => Ok((F32 { bits: v }).widened()),
            _ => Err(ErrorView::Format("expected a float, found "@ + self.shown())),
        }
    }

    /// The bytes of a length-delimited field.
    pub open spec fn to_bytes(self) -> Result<Seq<u8>, ErrorView> {
        match self {
            ValueView::Bytes(b) => Ok(b),
            _ => Err(
                ErrorView::Format("expected a length-delimited field, found "@ + self.shown()),
            ),
        }
    }

    /// The text of a length-delimited field.
    pub open spec fn to_text(self) -> Result<Seq<char>, ErrorView> {
        match self.to_bytes() {
            Ok(b) => if vstd::utf8::valid_utf8(b) {
                Ok(vstd::utf8::decode_utf8(b))
            } else {
                Err(ErrorView::Format("protobuf string field is not valid UTF-8"@))
            },
            Err(e) => Err(e),
        }
    }
}

/// That an outcome is what a specification says: the same value, or an error
/// with the same text.
pub open spec fn agrees<T>(r: Result<T, Error>, s: Result<T, ErrorView>) -> bool {
    match (r, s) {
        (Ok(a), Ok(b)) => a == b,
        (Err(e), Err(f)) => e@ == f,
        _ => false,
    }
}

impl<'a> Value<'a> {
    fn show(&self, before: &str) -> (r: Error)
        ensures
            r@ == ErrorView::Format(before@ + self@.shown()),
    {
        let mut s: String = String::from_str(before);
        match self {
            Value::Varint(v) => {
                s.append("Varint(");
                push_dec(&mut s, *v);
            },
            Value::Fixed64(v) => {
                s.append("Fixed64(");
                push_dec(&mut s, *v);
            },
            Value::Bytes(b) => {
                s.append("Bytes(");
                let mut wide: Vec<usize> = Vec::new();
                let mut i: usize = 0;
                while i < b.len()
                    invariant
                        i <= b@.len(),
                        wide@.len() == i,
                        forall|j: int| 0 <= j < i ==> wide@[j] == b@[j],
                    decreases b@.len() - i,
                {
                    wide.push(b[i] as usize);
                    i += 1;
                }
                crate::text::push_dec_list(&mut s, wide.as_slice());
                assert(wide@.map_values(|x: usize| x as nat) =~= b@.map_values(|x: u8| x as nat));
            },
            Value::Fixed32(v) => {
                s.append("Fixed32(");
                push_dec(&mut s, *v as u64);
            },
        }
        s.append(")");
        assert(s@ =~= before@ + self@.shown());
        Error::Format(s)
    }

    pub fn as_u64(&self) -> (r: Result<u64, Error>)
        ensures
            agrees(r, self@.to_u64()),
    {
        match self {
            Value::Varint(v) => Ok(*v),
            _ => Err(self.show("expected a varint, found ")),
        }
    }

    pub fn as_bool(&self) -> (r: Result<bool, Error>)
        ensures
            agrees(r, self@.to_bool()),
    {
        match self.as_u64() {
            Ok(v) => Ok(v != 0),
            Err(e) => Err(e),
        }
    }

    /// A binary32 number, whether stored as `fixed32` or as a varint, whose low 32 bits
    /// then count.
    pub fn as_f32(&self) -> (r: Result<F32, Error>)
        ensures
            agrees(r, self@.to_f32()),
    {
        match self {
            Value::Fixed32(v) => Ok(F32 { bits: *v }),
            Value::Varint(v) => Ok(F32 { bits: (*v % 0x1_0000_0000) as u32 }),
            _ => Err(self.show("expected a fixed32 float, found ")),
        }
    }

    /// A binary64 number; a binary32 number is widened.
    pub fn as_f64(&self) -> (r: Result<F64, Error>)
        ensures
            agrees(r, self@.to_f64()),
    {
        match self {
            Value::Fixed64(v) => Ok(F64 { bits: *v }),
            Value::Fixed32(v) => Ok((F32 { bits: *v }).widen()),
            _ => Err(self.show("expected a float, found ")),
        }
    }

    pub fn as_bytes(&self) -> (r: Result<&'a [u8], Error>)
        ensures
            match (r, self@.to_bytes()) {
                (Ok(a), Ok(b)) => a@ == b,
                (Err(e), Err(f)) => e@ == f,
                _ => false,
            },
    {
        match self {
            Value::Bytes(b) => Ok(*b),
            _ => Err(self.show("expected a length-delimited field, found ")),
        }
    }

    pub fn as_str(&self) -> (r: Result<&'a str, Error>)
        ensures
            match (r, self@.to_text()) {
                (Ok(a), Ok(b)) => a@ == b,
                (Err(e), Err(f)) => e@ == f,
                _ => false,
            },
    {
        match self.as_bytes() {
            Ok(b) => match core::str::from_utf8(b) {
                Ok(s) => Ok(s),
                Err(_) => Err(format_error("protobuf string field is not valid UTF-8")),
            },
            Err(e) => Err(e),
        }
    }
}

/// What the seven low bits of each byte make up, the first byte lowest.
pub open spec fn varint_value(s: Seq<u8>) -> nat
    decreases s.len(),
{
    if s.len() == 0 {
        0
    } else {
        varint_value(s.drop_last()) + (s.last() % 128) as nat * pow(
            128,
            (s.len() - 1) as nat,
        ) as nat
    }
}

/// That a varint at `pos` has `k` bytes before its last: only the last is below
/// 128.
pub open spec fn varint_ends(data: Seq<u8>, pos: int, k: int) -> bool {
    &&& pos + k < data.len()
    &&& data[pos + k] < 128
    &&& forall|j: int| pos <= j < pos + k ==> data[j] >= 128
}

/// The varint at `pos`, cut to 64 bits, and the position behind it.
pub open spec fn varint_at(data: Seq<u8>, pos: int) -> Result<(u64, int), ErrorView> {
    if exists|k: int| 0 <= k < 10 && #[trigger] varint_ends(data, pos, k) {
        let k = choose|k: int| 0 <= k < 10 && #[trigger] varint_ends(data, pos, k);
        Ok(
            (
                (varint_value(data.subrange(pos, pos + k + 1)) % pow2(64)) as u64,
                pos + k + 1,
            ),
        )
    } else if pos + 10 <= data.len() {
        Err(ErrorView::Format("varint longer than 10 bytes"@))
    } else {
        Err(ErrorView::Format("truncated varint"@))
    }
}

/// The `n` bytes at `pos`, and the position behind them.
pub open spec fn taken(data: Seq<u8>, pos: int, n: int) -> Result<(Seq<u8>, int), ErrorView> {
    if pos + n > usize::MAX {
        Err(ErrorView::Format("protobuf length overflow"@))
    } else if pos + n > data.len() {
        Err(ErrorView::Format("truncated protobuf field at byte "@ + dec(pos as nat)))
    } else {
        Ok((data.subrange(pos, pos + n), pos + n))
    }
}

/// The value of a wire type at `pos`, and the position behind it.
pub open spec fn value_at(data: Seq<u8>, pos: int, wire: u64) -> Result<
    (ValueView, int),
    ErrorView,
> {
    if wire == 0 {
        match varint_at(data, pos) {
            Ok((v, end)) => Ok((ValueView::Varint(v), end)),
            Err(e) => Err(e),
        }
    } else if wire == 1 {
        match taken(data, pos, 8) {
            Ok((b, end)) => Ok((ValueView::Fixed64(le(b) as u64), end)),
            Err(e) => Err(e),
        }
    } else if wire == 2 {
        match varint_at(data, pos) {
            Ok((n, start)) => if n > usize::MAX {
                Err(ErrorView::Format("length-delimited field too large"@))
            } else {
                match taken(data, start, n as int) {
                    Ok((b, end)) => Ok((ValueView::Bytes(b), end)),
                    Err(e) => Err(e),
                }
            },
            Err(e) => Err(e),
        }
    } else if wire == 5 {
        match taken(data, pos, 4) {
            Ok((b, end)) => Ok((ValueView::Fixed32(le(b) as u32), end)),
            Err(e) => Err(e),
        }
    } else {
        Err(ErrorView::Unsupported("protobuf wire type "@ + dec(wire as nat)))
    }
}

/// The field at `pos`: its number, its value, and the position behind it.
pub open spec fn field_at(data: Seq<u8>, pos: int) -> Result<(u32, ValueView, int), ErrorView> {
    match varint_at(data, pos) {
        Ok((key, start)) => {
            let number = key / 8;
            if number > u32::MAX {
                Err(ErrorView::Format("protobuf field number out of range"@))
            } else if number == 0 {
                Err(ErrorView::Format("protobuf field number 0"@))
            } else {
                match value_at(data, start, key % 8) {
                    Ok((value, end)) => Ok((number as u32, value, end)),
                    Err(e) => Err(e),
                }
            }
        },
        Err(e) => Err(e),
    }
}

proof fn lemma_varint_end_unique(data: Seq<u8>, pos: int, a: int, b: int)
    requires
        0 <= a,
        0 <= b,
        varint_ends(data, pos, a),
        varint_ends(data, pos, b),
    ensures
        a == b,
{
    if a < b {
        assert(data[pos + a] >= 128);
    }
    if b < a {
        assert(data[pos + b] >= 128);
    }
}

/// What a varint leaves behind it lies within the data.
proof fn lemma_varint_at(data: Seq<u8>, pos: int)
    requires
        0 <= pos <= data.len(),
    ensures
        varint_at(data, pos) matches Ok((v, end)) ==> pos < end <= data.len(),
{
}

/// A field ends behind its start and within the data.
pub proof fn lemma_field_at(data: Seq<u8>, pos: int)
    requires
        0 <= pos <= data.len(),
    ensures
        field_at(data, pos) matches Ok((n, v, end)) ==> pos < end <= data.len(),
{
    lemma_varint_at(data, pos);
    if let Ok((key, start)) = varint_at(data, pos) {
        lemma_varint_at(data, start);
    }
}

/// Sequential reader over one message body.
#[derive(Debug, Clone)]
pub struct Reader<'a> {
    data: &'a [u8],
    pos: usize,
}

impl<'a> Reader<'a> {
    /// The message body.
    pub closed spec fn data(&self) -> Seq<u8> {
        self.data@
    }

    /// How far the body has been read.
    pub closed spec fn pos(&self) -> int {
        self.pos as int
    }

    /// The position lies within the body.
    pub open spec fn wf(&self) -> bool {
        0 <= self.pos() <= self.data().len()
    }

    pub fn new(data: &'a [u8]) -> (r: Self)
        ensures
            r.wf(),
            r.data() == data@,
            r.pos() == 0,
    {
        Reader { data, pos: 0 }
    }

    pub fn is_done(&self) -> (r: bool)
        ensures
            r == (self.pos() >= self.data().len()),
    {
        self.pos >= self.data.len()
    }

    fn varint(&mut self) -> (r: Result<u64, Error>)
        requires
            old(self).wf(),
        ensures
            final(self).wf(),
            final(self).data() == old(self).data(),
            match (r, varint_at(old(self).data(), old(self).pos())) {
                (Ok(v), Ok((w, end))) => v == w && final(self).pos() == end,
                (Err(e), Err(f)) => e@ == f,
                _ => false,
            },
    {
        let ghost data = self.data@;
        let ghost start = self.pos as int;
        let mut value: u128 = 0;
        let mut place: u128 = 1;
        let mut i: usize = 0;
        proof {
            assert(data.subrange(start, start) =~= Seq::empty());
            vstd::arithmetic::power::lemma_pow0(128);
        }
        while i < 10
            invariant
                i <= 10,
                self.data@ == data,
                self.pos == start + i,
                old(self).data() == data,
                old(self).pos() == start,
                0 <= start,
                start + i <= data.len(),
                forall|j: int| start <= j < start + i ==> data[j] >= 128,
                value == varint_value(data.subrange(start, start + i)),
                place == pow(128, i as nat),
                value < place,
                place <= 0x40_0000_0000_0000_0000u128,
                i <= 9 ==> place <= 0x8000_0000_0000_0000u128,
                i <= 8 ==> place <= 0x100_0000_0000_0000u128,
                i <= 7 ==> place <= 0x2_0000_0000_0000u128,
                i <= 6 ==> place <= 0x400_0000_0000u128,
                i <= 5 ==> place <= 0x8_0000_0000u128,
                i <= 4 ==> place <= 0x1000_0000u128,
                i <= 3 ==> place <= 0x20_0000u128,
                i <= 2 ==> place <= 0x4000u128,
                i <= 1 ==> place <= 0x80u128,
                i == 0 ==> place <= 1u128,
            decreases 10 - i,
        {
            if self.pos >= self.data.len() {
                proof {
                    assert forall|k: int| 0 <= k < 10 implies !#[trigger] varint_ends(
                        data,
                        start,
                        k,
                    ) by {
                        if k < i {
                            assert(data[start + k] >= 128);
                        }
                    }
                }
                return Err(format_error("truncated varint"));
            }
            let byte: u8 = self.data[self.pos];
            self.pos = self.pos + 1;
            proof {
                let s = data.subrange(start, start + i + 1);
                assert(s.drop_last() =~= data.subrange(start, start + i));
                assert(s.last() == byte);
                vstd::arithmetic::power::lemma_pow_adds(128, i as nat, 1);
                vstd::arithmetic::power::lemma_pow1(128);
                assert((byte % 128) * place + value < 128 * place) by (nonlinear_arith)
                    requires
                        value < place,
                        byte % 128 <= 127,
                        place > 0,
                ;
            }
            value = value + ((byte % 128) as u128) * place;
            if byte < 128 {
                proof {
                    let k = i as int;
                    assert(varint_ends(data, start, k));
                    let c = choose|c: int| 0 <= c < 10 && #[trigger] varint_ends(data, start, c);
                    lemma_varint_end_unique(data, start, c, k);
                    vstd::arithmetic::power2::lemma2_to64();
                }
                return Ok((value % 0x1_0000_0000_0000_0000u128) as u64);
            }
            place = place * 128;
            i += 1;
        }
        proof {
            assert forall|k: int| 0 <= k < 10 implies !#[trigger] varint_ends(data, start, k) by {
                assert(data[start + k] >= 128);
            }
        }
        Err(format_error("varint longer than 10 bytes"))
    }

    fn take(&mut self, n: usize) -> (r: Result<&'a [u8], Error>)
        requires
            old(self).wf(),
        ensures
            final(self).wf(),
            final(self).data() == old(self).data(),
            match (r, taken(old(self).data(), old(self).pos(), n as int)) {
                (Ok(b), Ok((c, end))) => b@ == c && final(self).pos() == end,
                (Err(e), Err(f)) => e@ == f,
                _ => false,
            },
    {
        let end: usize = match self.pos.checked_add(n) {
            Some(end) => end,
            None => {
                return Err(format_error("protobuf length overflow"));
            },
        };
        if end > self.data.len() {
            let text: String = text_with("truncated protobuf field at byte ", self.pos as u64, "");
            proof {
                reveal_strlit("");
                assert(text@ =~= "truncated protobuf field at byte "@ + dec(self.pos as nat));
            }
            return Err(Error::Format(text));
        }
        let slice: &'a [u8] = vstd::slice::slice_subrange(self.data, self.pos, end);
        self.pos = end;
        Ok(slice)
    }

    /// Next `(field number, value)`, or `None` at the end of the message.
    pub fn next_field(&mut self) -> (r: Result<Option<(u32, Value<'a>)>, Error>)
        requires
            old(self).wf(),
        ensures
            final(self).wf(),
            final(self).data() == old(self).data(),
            old(self).pos() == old(self).data().len() <==> r matches Ok(None),
            old(self).pos() == old(self).data().len() ==> final(self).pos() == old(self).pos(),
            old(self).pos() < old(self).data().len() ==> match (
                r,
                field_at(old(self).data(), old(self).pos()),
            ) {
                (Ok(Some((n, v))), Ok((m, w, end))) => n == m && v@ == w && final(self).pos()
                    == end,
                (Err(e), Err(f)) => e@ == f,
                _ => false,
            },
    {
        if self.is_done() {
            return Ok(None);
        }
        let key: u64 = match self.varint() {
            Ok(key) => key,
            Err(e) => {
                return Err(e);
            },
        };
        let number: u64 = key / 8;
        if number > u32::MAX as u64 {
            return Err(format_error("protobuf field number out of range"));
        }
        if number == 0 {
            return Err(format_error("protobuf field number 0"));
        }
        let wire: u64 = key % 8;
        let value: Value<'a> = if wire == 0 {
            match self.varint() {
                Ok(v) => Value::Varint(v),
                Err(e) => {
                    return Err(e);
                },
            }
        } else if wire == 1 {
            match self.take(8) {
                Ok(b) => Value::Fixed64(read_u64(b)),
                Err(e) => {
                    return Err(e);
                },
            }
        } else if wire == 2 {
            let n: u64 = match self.varint() {
                Ok(n) => n,
                Err(e) => {
                    return Err(e);
                },
            };
            if n > usize::MAX as u64 {
                return Err(format_error("length-delimited field too large"));
            }
            match self.take(n as usize) {
                Ok(b) => Value::Bytes(b),
                Err(e) => {
                    return Err(e);
                },
            }
        } else if wire == 5 {
            match self.take(4) {
                Ok(b) => Value::Fixed32(read_u32(b)),
                Err(e) => {
                    return Err(e);
                },
            }
        } else {
            let text: String = text_with("protobuf wire type ", wire, "");
            proof {
                reveal_strlit("");
                assert(text@ =~= "protobuf wire type "@ + dec(wire as nat));
            }
            return Err(Error::Unsupported(text));
        };
        Ok(Some((number as u32, value)))
    }
}

/// The fields from `pos` on, up to the first that is malformed, and how the walk
/// ends.
pub open spec fn fields_from(data: Seq<u8>, pos: int) -> (
    Seq<(u32, ValueView)>,
    Result<(), ErrorView>,
)
    decreases data.len() - pos,
{
    if pos < 0 || pos >= data.len() {
        (Seq::empty(), Ok(()))
    } else {
        match field_at(data, pos) {
            Ok((n, v, end)) => if pos < end <= data.len() {
                let (rest, outcome) = fields_from(data, end);
                (seq![(n, v)] + rest, outcome)
            } else {
                (Seq::empty(), Ok(()))
            },
            Err(e) => (Seq::empty(), Err(e)),
        }
    }
}

/// What a reader makes of fields in order, from a state and a step that may
/// refuse a field.
pub open spec fn fold_fields<S>(
    fields: Seq<(u32, ValueView)>,
    start: S,
    step: spec_fn(S, u32, ValueView) -> Result<S, ErrorView>,
) -> Result<S, ErrorView>
    decreases fields.len(),
{
    if fields.len() == 0 {
        Ok(start)
    } else {
        match fold_fields(fields.drop_last(), start, step) {
            Ok(s) => step(s, fields.last().0, fields.last().1),
            Err(e) => Err(e),
        }
    }
}

/// What a reader makes of a message: each field as it comes, so that a refused
/// field is reported before a malformed one behind it.
pub open spec fn read_message<S>(
    data: Seq<u8>,
    start: S,
    step: spec_fn(S, u32, ValueView) -> Result<S, ErrorView>,
) -> Result<S, ErrorView> {
    let (fields, outcome) = fields_from(data, 0);
    match fold_fields(fields, start, step) {
        Ok(s) => match outcome {
            Ok(()) => Ok(s),
            Err(e) => Err(e),
        },
        Err(e) => Err(e),
    }
}

/// A refused field decides the outcome, whatever comes behind it.
pub proof fn lemma_fold_refused<S>(
    fields: Seq<(u32, ValueView)>,
    start: S,
    step: spec_fn(S, u32, ValueView) -> Result<S, ErrorView>,
    i: int,
)
    requires
        0 <= i <= fields.len(),
        fold_fields(fields.take(i), start, step) is Err,
    ensures
        fold_fields(fields, start, step) == fold_fields(fields.take(i), start, step),
    decreases fields.len(),
{
    if i == fields.len() {
        assert(fields.take(i) =~= fields);
    } else {
        assert(fields.drop_last().take(i) =~= fields.take(i));
        lemma_fold_refused(fields.drop_last(), start, step, i);
    }
}

/// What is left of a state after fields in order, up to the first refused one, which
/// leaves what `refused` says.
pub open spec fn left_by<S>(
    fields: Seq<(u32, ValueView)>,
    start: S,
    step: spec_fn(S, u32, ValueView) -> Result<S, ErrorView>,
    refused: spec_fn(S, u32, ValueView) -> S,
) -> S
    decreases fields.len(),
{
    if fields.len() == 0 {
        start
    } else {
        match fold_fields(fields.drop_last(), start, step) {
            Ok(s) => match step(s, fields.last().0, fields.last().1) {
                Ok(t) => t,
                Err(_) => refused(s, fields.last().0, fields.last().1),
            },
            Err(_) => left_by(fields.drop_last(), start, step, refused),
        }
    }
}

/// No field behind a refused one is looked at.
pub proof fn lemma_refused_last<S>(
    fields: Seq<(u32, ValueView)>,
    start: S,
    step: spec_fn(S, u32, ValueView) -> Result<S, ErrorView>,
    refused: spec_fn(S, u32, ValueView) -> S,
    i: int,
)
    requires
        0 <= i <= fields.len(),
        fold_fields(fields.take(i), start, step) is Err,
    ensures
        left_by(fields, start, step, refused) == left_by(fields.take(i), start, step, refused),
    decreases fields.len(),
{
    if i == fields.len() {
        assert(fields.take(i) =~= fields);
    } else {
        assert(fields.drop_last().take(i) =~= fields.take(i));
        lemma_fold_refused(fields.drop_last(), start, step, i);
        lemma_refused_last(fields.drop_last(), start, step, refused, i);
    }
}

/// One more field of a fold.
pub proof fn lemma_fold_next<S>(
    fields: Seq<(u32, ValueView)>,
    start: S,
    step: spec_fn(S, u32, ValueView) -> Result<S, ErrorView>,
    i: int,
)
    requires
        0 <= i < fields.len(),
    ensures
        fold_fields(fields.take(i + 1), start, step) == match fold_fields(
            fields.take(i),
            start,
            step,
        ) {
            Ok(s) => step(s, fields[i].0, fields[i].1),
            Err(e) => Err(e),
        },
{
    assert(fields.take(i + 1).drop_last() =~= fields.take(i));
    assert(fields.take(i + 1).last() == fields[i]);
}

/// Something that takes the fields of a message one by one, and may refuse one.
pub trait Visitor {
    /// What has been made of the fields so far.
    type State;

    spec fn state(&self) -> Self::State;

    /// What a field makes of a state.
    spec fn step(state: Self::State, field: u32, value: ValueView) -> Result<
        Self::State,
        ErrorView,
    >;

    /// What a refused field leaves of a state.
    spec fn refused(state: Self::State, field: u32, value: ValueView) -> Self::State;

    fn visit(&mut self, field: u32, value: Value<'_>) -> (r: Result<(), Error>)
        ensures
            match (r, Self::step(old(self).state(), field, value@)) {
                (Ok(_), Ok(s)) => final(self).state() == s,
                (Err(e), Err(f)) => e@ == f && final(self).state() == Self::refused(
                    old(self).state(),
                    field,
                    value@,
                ),
                _ => false,
            },
    ;
}

/// The step of a visitor as a value.
pub open spec fn step_of<T: Visitor>() -> spec_fn(T::State, u32, ValueView) -> Result<
    T::State,
    ErrorView,
> {
    |s: T::State, n: u32, v: ValueView| T::step(s, n, v)
}

/// What a visitor's refusals leave, as a value.
pub open spec fn refusal_of<T: Visitor>() -> spec_fn(T::State, u32, ValueView) -> T::State {
    |s: T::State, n: u32, v: ValueView| T::refused(s, n, v)
}

/// What a visitor is left with behind a message, whether or not all of it was taken:
/// it has seen the fields up to the first refused one, or up to what is malformed.
pub open spec fn walked<T: Visitor>(data: Seq<u8>, start: T::State) -> T::State {
    left_by(fields_from(data, 0).0, start, step_of::<T>(), refusal_of::<T>())
}

/// What a visitor of a field's own message is left with, where the field has one.
pub open spec fn walked_inside<T: Visitor>(value: ValueView, start: T::State) -> T::State {
    match value.to_bytes() {
        Ok(data) => walked::<T>(data, start),
        Err(_) => start,
    }
}

/// What a visitor makes of a message.
pub open spec fn visited<T: Visitor>(data: Seq<u8>, start: T::State) -> Result<
    T::State,
    ErrorView,
> {
    read_message(data, start, step_of::<T>())
}

/// Visits every field of a message in wire order, and none behind a refused one or
/// behind what is malformed.
pub fn for_each_field<T: Visitor>(data: &[u8], visitor: &mut T) -> (r: Result<(), Error>)
    ensures
        match (r, visited::<T>(data@, old(visitor).state())) {
            (Ok(_), Ok(s)) => final(visitor).state() == s,
            (Err(e), Err(f)) => e@ == f,
            _ => false,
        },
        final(visitor).state() == walked::<T>(data@, old(visitor).state()),
{
    let ghost start = visitor.state();
    let ghost all = fields_from(data@, 0).0;
    let ghost step = step_of::<T>();
    let ghost refused = refusal_of::<T>();
    let mut reader: Reader<'_> = Reader::new(data);
    let ghost mut done: int = 0;
    proof {
        assert(all.take(0) =~= Seq::empty());
        assert(all.skip(0) =~= all);
    }
    loop
        invariant
            reader.wf(),
            reader.data() == data@,
            all == fields_from(data@, 0).0,
            step == step_of::<T>(),
            refused == refusal_of::<T>(),
            start == old(visitor).state(),
            0 <= done <= all.len(),
            all.skip(done) == fields_from(data@, reader.pos()).0,
            fields_from(data@, reader.pos()).1 == fields_from(data@, 0).1,
            fold_fields(all.take(done), start, step) == Ok::<T::State, ErrorView>(visitor.state()),
        decreases data@.len() - reader.pos(),
    {
        let ghost pos = reader.pos();
        proof {
            lemma_field_at(data@, pos);
        }
        match reader.next_field() {
            Err(e) => {
                assert(all.take(done) =~= all);
                return Err(e);
            },
            Ok(None) => {
                assert(all.take(done) =~= all);
                return Ok(());
            },
            Ok(Some((field, value))) => {
                proof {
                    assert(fields_from(data@, pos).0 == seq![(field, value@)] + fields_from(
                        data@,
                        reader.pos(),
                    ).0);
                    assert(all.skip(done).len() > 0);
                    assert(all.skip(done)[0] == (field, value@));
                    assert(all[done] == (field, value@));
                    lemma_fold_next(all, start, step, done);
                    if fold_fields(all.take(done + 1), start, step) is Err {
                        lemma_fold_refused(all, start, step, done + 1);
                        lemma_refused_last(all, start, step, refused, done + 1);
                        assert(all.take(done + 1).drop_last() =~= all.take(done));
                    }
                    assert(all.skip(done + 1) =~= all.skip(done).drop_first());
                    assert(fields_from(data@, pos).0.drop_first() =~= fields_from(
                        data@,
                        reader.pos(),
                    ).0);
                }
                match visitor.visit(field, value) {
                    Err(e) => {
                        return Err(e);
                    },
                    Ok(_) => {},
                }
                proof {
                    done = done + 1;
                }
            },
        }
    }
}

} // verus!
