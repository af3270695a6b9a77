//! Handwriting networks out of a TFLite flatbuffer.
//!
//! There is no interpreter here: the networks use a custom
//! `bidirectional_sequence_indylstm` operator, so the weight tensors are read
//! and handed on.
//!
//! Hybrid tensors declared `UINT8` with a zero point of zero hold *signed* bytes.
use vstd::prelude::*;
use vstd::utf8::encode_utf8;

use crate::bytes::{le, read_u32, read_u64};
use crate::error::{text_with, text_with2, unsupported, Error, ErrorView};
use crate::flatbuffer::{
    at_byte, at_byte_error, bytes_at, field_of, i32_of, indirect_at, same_bytes, shows, signed32,
    signed8, string_of, table_at, table_of, to_signed32, u32_of, u8_of, vector_of, Flatbuffer,
    Table, TableView, Vector, VectorView,
};
use crate::float::F32;
use crate::proto::agrees;
use crate::soundness::{lemma_network_sound, network_sound};
use crate::text::{
    dec, dec_int, dec_list, push_dec, push_dec_int, push_dec_list, quoted, quoted_text,
};

verus! {

fn same_sizes(a: &[usize], b: &[usize]) -> (r: bool)
    ensures
        r == (a@ == b@),
{
    if a.len() != b.len() {
        return false;
    }
    let mut i: usize = 0;
    while i < a.len()
        invariant
            i <= a@.len(),
            a@.len() == b@.len(),
            forall|j: int| 0 <= j < i ==> a@[j] == b@[j],
        decreases a@.len() - i,
    {
        if a[i] != b[i] {
            return false;
        }
        i += 1;
    }
    assert(a@ =~= b@);
    true
}

/// Gate order on the first axis is always (input, forget, cell, output), taken
/// from operator input slots rather than tensor names.
pub const GATES: usize = 4;

/// One LSTM direction's weights, all dequantized.
#[derive(Debug, Clone, PartialEq)]
pub struct DirectionWeights {
    /// `[GATES][hidden][input]`, flattened row-major.
    pub input_kernels: Vec<F32>,
    /// `[GATES][hidden]` for a diagonal recurrence, or `[GATES][hidden][hidden]`
    /// for a full one.
    pub recurrent_kernels: Vec<F32>,
    pub diagonal: bool,
    /// `[GATES][hidden]`. Already trained and exported: no separate forget-bias
    /// constant is added.
    pub biases: Vec<F32>,
    pub initial_activation: Vec<F32>,
    pub initial_cell: Vec<F32>,
    pub hidden: usize,
    pub input: usize,
}

/// One bidirectional layer.
#[derive(Debug, Clone, PartialEq)]
pub struct LayerWeights {
    pub forward: DirectionWeights,
    pub backward: DirectionWeights,
    pub cell_clip: F32,
    /// Kept verbatim so that the operator's options stay checkable.
    pub custom_options: Vec<u8>,
}

/// A whole network: layers and one linear head.
#[derive(Debug, Clone, PartialEq)]
pub struct NetworkWeights {
    pub layers: Vec<LayerWeights>,
    /// `[num_classes][2 * last_hidden]`, flattened row-major.
    pub fc_weights: Vec<F32>,
    pub fc_bias: Vec<F32>,
    pub input_size: usize,
    pub num_classes: usize,
}

/// A [`DirectionWeights`] by its contents.
#[verifier::ext_equal]
pub struct DirectionView {
    pub input_kernels: Seq<F32>,
    pub recurrent_kernels: Seq<F32>,
    pub diagonal: bool,
    pub biases: Seq<F32>,
    pub initial_activation: Seq<F32>,
    pub initial_cell: Seq<F32>,
    pub hidden: usize,
    pub input: usize,
}

/// A [`LayerWeights`] by its contents.
#[verifier::ext_equal]
pub struct LayerView {
    pub forward: DirectionView,
    pub backward: DirectionView,
    pub cell_clip: F32,
    pub custom_options: Seq<u8>,
}

/// A [`NetworkWeights`] by its contents.
#[verifier::ext_equal]
pub struct NetworkView {
    pub layers: Seq<LayerView>,
    pub fc_weights: Seq<F32>,
    pub fc_bias: Seq<F32>,
    pub input_size: usize,
    pub num_classes: usize,
}

impl View for DirectionWeights {
    type V = DirectionView;

    open spec fn view(&self) -> DirectionView {
        DirectionView {
            input_kernels: self.input_kernels@,
            recurrent_kernels: self.recurrent_kernels@,
            diagonal: self.diagonal,
            biases: self.biases@,
            initial_activation: self.initial_activation@,
            initial_cell: self.initial_cell@,
            hidden: self.hidden,
            input: self.input,
        }
    }
}

impl View for LayerWeights {
    type V = LayerView;

    open spec fn view(&self) -> LayerView {
        LayerView {
            forward: self.forward@,
            backward: self.backward@,
            cell_clip: self.cell_clip,
            custom_options: self.custom_options@,
        }
    }
}

impl View for NetworkWeights {
    type V = NetworkView;

    open spec fn view(&self) -> NetworkView {
        NetworkView {
            layers: self.layers@.map_values(|l: LayerWeights| l@),
            fc_weights: self.fc_weights@,
            fc_bias: self.fc_bias@,
            input_size: self.input_size,
            num_classes: self.num_classes,
        }
    }
}

/// The tensors and the buffers of a graph.
#[derive(Debug, Clone, Copy)]
pub struct Tensors<'a> {
    pub tensors: Vector<'a>,
    pub buffers: Vector<'a>,
}

/// Where the tensors and the buffers of a graph lie.
pub struct TensorsView {
    pub tensors: VectorView,
    pub buffers: VectorView,
}

impl<'a> View for Tensors<'a> {
    type V = TensorsView;

    open spec fn view(&self) -> TensorsView {
        TensorsView { tensors: self.tensors@, buffers: self.buffers@ }
    }
}

/// What a quantized byte stands for. Hybrid tensors are signed storage, not an
/// affine shift by 128.
pub open spec fn dequantized(byte: u8, kind: u8, scale: F32, zero_point: int) -> F32 {
    let value = if kind == 9 || zero_point == 0 {
        signed8(byte as int)
    } else {
        byte as int
    };
    F32::of_int(value).sum(F32::of_int(zero_point).opposite()).product(scale)
}

/// The values of quantized bytes.
pub open spec fn dequantized_all(
    data: Seq<u8>,
    kind: u8,
    scale: F32,
    zero_point: int,
    offset: int,
) -> Result<Seq<F32>, ErrorView> {
    if !(scale.finite() && !scale.negative() && scale.index() > 0) {
        Err(at_byte(offset, "invalid quantization scale "@ + scale.text()))
    } else {
        Ok(data.map_values(|b: u8| dequantized(b, kind, scale, zero_point)))
    }
}

/// Dequantizes bytes of a tensor type.
pub fn dequantize(
    data: &[u8],
    tensor_type: u8,
    scale: F32,
    zero_point: i64,
    offset: usize,
) -> (r: Result<Vec<F32>, Error>)
    ensures
        shows(
            r,
            dequantized_all(data@, tensor_type, scale, zero_point as int, offset as int),
        ),
{
    if !scale.is_finite() || !scale.is_positive() {
        let mut text: String = String::from_str("invalid quantization scale ");
        scale.push_text(&mut text);
        return Err(at_byte_error(offset, text.as_str()));
    }
    let zero: F32 = F32::from_int(zero_point).negated();
    let mut table: Vec<F32> = Vec::new();
    let mut code: usize = 0;
    while code < 256
        invariant
            code <= 256,
            table@.len() == code,
            zero == F32::of_int(zero_point as int).opposite(),
            forall|i: int|
                0 <= i < code ==> table@[i] == dequantized(
                    i as u8,
                    tensor_type,
                    scale,
                    zero_point as int,
                ),
        decreases 256 - code,
    {
        let value: i64 = if tensor_type == 9 || zero_point == 0 {
            if code < 128 {
                code as i64
            } else {
                (code as i64) - 256
            }
        } else {
            code as i64
        };
        table.push(F32::from_int(value).plus(zero).times(scale));
        code += 1;
    }
    let mut out: Vec<F32> = Vec::new();
    let mut i: usize = 0;
    while i < data.len()
        invariant
            i <= data@.len(),
            table@.len() == 256,
            forall|i: int|
                0 <= i < 256 ==> table@[i] == dequantized(
                    i as u8,
                    tensor_type,
                    scale,
                    zero_point as int,
                ),
            out@ =~= data@.take(i as int).map_values(
                |b: u8| dequantized(b, tensor_type, scale, zero_point as int),
            ),
        decreases data@.len() - i,
    {
        out.push(table[data[i] as usize]);
        i += 1;
    }
    assert(data@.take(i as int) =~= data@);
    Ok(out)
}

/// The cell clipping threshold of the custom operator. The byte behind the
/// options is padding.
pub open spec fn clip_of(data: Seq<u8>, offset: int) -> Result<F32, ErrorView> {
    if !(data.len() == 8 && data[4] == 4 && data[5] == 1 && data[6] == 1) {
        Err(
            at_byte(
                offset,
                "unsupported IndyLSTM custom options "@ + dec_list(
                    data.map_values(|x: u8| x as nat),
                ),
            ),
        )
    } else {
        let clip = F32 { bits: le(data.take(4)) as u32 };
        if !(clip.finite() && (clip.index() == 0 || !clip.negative())) {
            Err(at_byte(offset, "invalid cell clipping threshold "@ + clip.text()))
        } else {
            Ok(clip)
        }
    }
}

/// Reads the options of the custom operator.
pub fn custom_options(data: &[u8], offset: usize) -> (r: Result<F32, Error>)
    ensures
        agrees(r, clip_of(data@, offset as int)),
{
    if !(data.len() == 8 && data[4] == 4 && data[5] == 1 && data[6] == 1) {
        let mut wide: Vec<usize> = Vec::new();
        let mut i: usize = 0;
        while i < data.len()
            invariant
                i <= data@.len(),
                wide@.len() == i,
                forall|j: int| 0 <= j < i ==> wide@[j] == data@[j],
            decreases data@.len() - i,
        {
            wide.push(data[i] as usize);
            i += 1;
        }
        let mut text: String = String::from_str("unsupported IndyLSTM custom options ");
        push_dec_list(&mut text, wide.as_slice());
        assert(wide@.map_values(|x: usize| x as nat) =~= data@.map_values(|x: u8| x as nat));
        return Err(at_byte_error(offset, text.as_str()));
    }
    let raw: &[u8] = vstd::slice::slice_subrange(data, 0, 4);
    assert(raw@ =~= data@.take(4));
    let clip: F32 = F32 { bits: read_u32(raw) };
    if !clip.is_finite() || !clip.is_nonnegative() {
        let mut text: String = String::from_str("invalid cell clipping threshold ");
        clip.push_text(&mut text);
        return Err(at_byte_error(offset, text.as_str()));
    }
    Ok(clip)
}

/// The table of an operator's builtin options, which must be of a kind.
pub open spec fn options_of(fb: Seq<u8>, op: TableView, expected: u8) -> Result<
    TableView,
    ErrorView,
> {
    match u8_of(fb, op, 10, 0) {
        Err(e) => Err(e),
        Ok(kind) => if kind != expected {
            Err(
                ErrorView::Unsupported(
                    "byte "@ + dec(op.pos as nat)
                        + ": missing or unsupported builtin options (expected "@ + dec(
                        expected as nat,
                    ) + ")"@,
                ),
            )
        } else {
            match field_of(fb, op, 12, 4) {
                Err(e) => Err(e),
                Ok(None) => Err(at_byte(op.pos, "missing builtin options table"@)),
                Ok(Some(field)) => match indirect_at(fb, field) {
                    Err(e) => Err(e),
                    Ok(p) => table_at(fb, p),
                },
            }
        },
    }
}

fn builtin_options<'a>(op: Table<'a>, expected: u8) -> (r: Result<Table<'a>, Error>)
    requires
        op.wf(),
    ensures
        shows(r, options_of(op.fb.data(), op@, expected)),
        r matches Ok(t) ==> t.wf() && t.fb == op.fb,
{
    if op.u8(10, 0)? != expected {
        return Err(
            Error::Unsupported(
                text_with2(
                    "byte ",
                    op.pos as u64,
                    ": missing or unsupported builtin options (expected ",
                    expected as u64,
                    ")",
                ),
            ),
        );
    }
    match op.field(12, 4)? {
        None => Err(at_byte_error(op.pos, "missing builtin options table")),
        Some(field) => {
            let p: usize = op.fb.indirect(field)?;
            op.fb.table(p)
        },
    }
}

/// The table of a tensor.
pub open spec fn tensor_of(fb: Seq<u8>, ts: TensorsView, index: int) -> Result<
    TableView,
    ErrorView,
> {
    if index < 0 {
        Err(at_byte(ts.tensors.pos, "missing or invalid tensor index "@ + dec_int(index)))
    } else {
        table_of(fb, ts.tensors, index)
    }
}

/// The first `n` dimensions of a tensor.
pub open spec fn dims_of(fb: Seq<u8>, v: VectorView, index: int, n: nat) -> Result<
    Seq<usize>,
    ErrorView,
>
    decreases n,
{
    if n == 0 {
        Ok(Seq::empty())
    } else {
        match dims_of(fb, v, index, (n - 1) as nat) {
            Err(e) => Err(e),
            Ok(dims) => match i32_of(fb, v, n - 1) {
                Err(e) => Err(e),
                Ok(dim) => if dim < 0 {
                    Err(
                        at_byte(
                            v.pos + (n - 1) * 4,
                            "negative tensor "@ + dec_int(index) + " dimension "@ + dec_int(
                                dim as int,
                            ),
                        ),
                    )
                } else {
                    Ok(dims.push(dim as usize))
                },
            },
        }
    }
}

/// The shape of a tensor.
pub open spec fn shape_of(fb: Seq<u8>, ts: TensorsView, index: int) -> Result<
    Seq<usize>,
    ErrorView,
> {
    match tensor_of(fb, ts, index) {
        Err(e) => Err(e),
        Ok(t) => match vector_of(fb, t, 4, 4) {
            Err(e) => Err(e),
            Ok(v) => dims_of(fb, v, index, v.len as nat),
        },
    }
}

/// An error among the first dimensions is the outcome.
proof fn lemma_dims_error(fb: Seq<u8>, v: VectorView, index: int, n: nat, m: nat)
    requires
        n <= m,
        dims_of(fb, v, index, n) is Err,
    ensures
        dims_of(fb, v, index, m) == dims_of(fb, v, index, n),
    decreases m,
{
    if n < m {
        lemma_dims_error(fb, v, index, n, (m - 1) as nat);
    }
}

/// The product of dimensions, where no partial product is too large.
pub open spec fn size_of_shape(dims: Seq<usize>) -> Option<nat>
    decreases dims.len(),
{
    if dims.len() == 0 {
        Some(1)
    } else {
        match size_of_shape(dims.drop_last()) {
            None => None,
            Some(n) => if n * dims.last() > usize::MAX {
                None
            } else {
                Some((n * dims.last()) as nat)
            },
        }
    }
}

fn shape_size(dims: &[usize]) -> (r: Option<usize>)
    ensures
        match (r, size_of_shape(dims@)) {
            (Some(a), Some(b)) => a == b,
            (None, None) => true,
            _ => false,
        },
{
    let mut size: usize = 1;
    let mut i: usize = 0;
    while i < dims.len()
        invariant
            i <= dims@.len(),
            size_of_shape(dims@.take(i as int)) == Some(size as nat),
        decreases dims@.len() - i,
    {
        proof {
            assert(dims@.take(i + 1).drop_last() =~= dims@.take(i as int));
            assert(dims@.take(i + 1).last() == dims@[i as int]);
        }
        match size.checked_mul(dims[i]) {
            None => {
                proof {
                    lemma_shape_overflow(dims@, i + 1);
                }
                return None;
            },
            Some(n) => {
                size = n;
            },
        }
        i += 1;
    }
    assert(dims@.take(i as int) =~= dims@);
    Some(size)
}

proof fn lemma_shape_overflow(dims: Seq<usize>, i: int)
    requires
        0 <= i <= dims.len(),
        size_of_shape(dims.take(i)) is None,
    ensures
        size_of_shape(dims) is None,
    decreases dims.len(),
{
    if i == dims.len() {
        assert(dims.take(i) =~= dims);
    } else {
        assert(dims.drop_last().take(i) =~= dims.take(i));
        lemma_shape_overflow(dims.drop_last(), i);
    }
}

/// Numbers of 32 bits as they stand in bytes.
pub open spec fn floats_in(data: Seq<u8>) -> Seq<F32> {
    Seq::new(
        data.len() / 4,
        |i: int| F32 { bits: le(data.subrange(4 * i, 4 * i + 4)) as u32 },
    )
}

fn read_floats(data: &[u8]) -> (r: Vec<F32>)
    requires
        data@.len() % 4 == 0,
    ensures
        r@ == floats_in(data@),
{
    let mut out: Vec<F32> = Vec::new();
    let total: usize = data.len();
    let n: usize = total / 4;
    let mut i: usize = 0;
    while i < n
        invariant
            i <= n,
            n == total / 4,
            total == data@.len(),
            out@.len() == i,
            forall|j: int| 0 <= j < i ==> out@[j] == floats_in(data@)[j],
        decreases n - i,
    {
        let raw: &[u8] = vstd::slice::slice_subrange(data, 4 * i, 4 * i + 4);
        out.push(F32 { bits: read_u32(raw) });
        i += 1;
    }
    assert(out@ =~= floats_in(data@));
    out
}

/// The quantized values of a tensor.
pub open spec fn quantized_of(
    fb: Seq<u8>,
    tensor: TableView,
    index: int,
    kind: u8,
    data: Seq<u8>,
) -> Result<Seq<F32>, ErrorView> {
    match field_of(fb, tensor, 12, 4) {
        Err(e) => Err(e),
        Ok(None) => Err(
            at_byte(tensor.pos, "tensor "@ + dec_int(index) + " has no quantization"@),
        ),
        Ok(Some(field)) => match indirect_at(fb, field) {
            Err(e) => Err(e),
            Ok(p) => match table_at(fb, p) {
                Err(e) => Err(e),
                Ok(quant) => match vector_of(fb, quant, 8, 4) {
                    Err(e) => Err(e),
                    Ok(scale) => match vector_of(fb, quant, 10, 8) {
                        Err(e) => Err(e),
                        Ok(zero) => if scale.len != 1 || zero.len != 1 {
                            Err(
                                at_byte(
                                    quant.pos,
                                    "tensor "@ + dec_int(index)
                                        + " expected per-tensor quantization"@,
                                ),
                            )
                        } else {
                            dequantized_all(
                                data,
                                kind,
                                F32 { bits: le(fb.subrange(scale.pos, scale.pos + 4)) as u32 },
                                signed64(le(fb.subrange(zero.pos, zero.pos + 8)) as int),
                                scale.pos,
                            )
                        },
                    },
                },
            },
        },
    }
}

/// A number of 64 bits, read as signed.
pub open spec fn signed64(x: int) -> int {
    if x < 0x8000_0000_0000_0000 {
        x
    } else {
        x - 0x1_0000_0000_0000_0000
    }
}

fn to_signed64(x: u64) -> (r: i64)
    ensures
        r == signed64(x as int),
{
    if x < 0x8000_0000_0000_0000 {
        x as i64
    } else {
        ((x as i128) - 0x1_0000_0000_0000_0000) as i64
    }
}

/// Whether every value is a finite number.
pub open spec fn all_finite(values: Seq<F32>) -> bool {
    forall|i: int| 0 <= i < values.len() ==> (#[trigger] values[i]).finite()
}

/// That many zeros.
pub open spec fn zero_values(count: nat) -> Seq<F32> {
    Seq::new(count, |i: int| F32 { bits: 0 })
}

fn zeros(count: usize) -> (r: Vec<F32>)
    ensures
        r@ == zero_values(count as nat),
{
    let mut out: Vec<F32> = Vec::new();
    let mut i: usize = 0;
    while i < count
        invariant
            i <= count,
            out@ =~= zero_values(i as nat),
        decreases count - i,
    {
        out.push(F32 { bits: 0 });
        i += 1;
    }
    out
}

fn finite_values(values: &[F32]) -> (r: bool)
    ensures
        r == all_finite(values@),
{
    let mut i: usize = 0;
    while i < values.len()
        invariant
            i <= values@.len(),
            forall|j: int| 0 <= j < i ==> (#[trigger] values@[j]).finite(),
        decreases values@.len() - i,
    {
        if !values[i].is_finite() {
            assert(!values@[i as int].finite());
            return false;
        }
        i += 1;
    }
    true
}

/// The values of a tensor that must have a shape. A state without a buffer is
/// zero.
#[verifier::opaque]
pub open spec fn tensor_values(
    fb: Seq<u8>,
    ts: TensorsView,
    index: int,
    expected: Seq<usize>,
    state: bool,
) -> Result<Seq<F32>, ErrorView> {
    match tensor_of(fb, ts, index) {
        Err(e) => Err(e),
        Ok(tensor) => match shape_of(fb, ts, index) {
            Err(e) => Err(e),
            Ok(shape) => if shape != expected {
                Err(
                    at_byte(
                        tensor.pos,
                        "tensor "@ + dec_int(index) + " shape does not match "@ + dec_list(
                            expected.map_values(|x: usize| x as nat),
                        ),
                    ),
                )
            } else {
                match size_of_shape(expected) {
                    None => Err(at_byte(tensor.pos, "tensor shape overflow"@)),
                    Some(count) => sized_values(fb, ts, tensor, index, expected, count, state),
                }
            },
        },
    }
}

/// The values of a tensor of `count` elements.
pub open spec fn sized_values(
    fb: Seq<u8>,
    ts: TensorsView,
    tensor: TableView,
    index: int,
    expected: Seq<usize>,
    count: nat,
    state: bool,
) -> Result<Seq<F32>, ErrorView> {
    match u8_of(fb, tensor, 6, 0) {
        Err(e) => Err(e),
        Ok(kind) => if !(kind == 0 || kind == 3 || kind == 9) {
            Err(
                ErrorView::Unsupported(
                    "tensor "@ + dec_int(index) + ": unsupported weight type "@ + dec(kind as nat),
                ),
            )
        } else {
            match u32_of(fb, tensor, 8, 0) {
                Err(e) => Err(e),
                Ok(slot) => match table_of(fb, ts.buffers, slot as int) {
                    Err(e) => Err(e),
                    Ok(holder) => match vector_of(fb, holder, 4, 1) {
                        Err(e) => Err(e),
                        Ok(buffer) => buffer_values(
                            fb,
                            tensor,
                            index,
                            expected,
                            count,
                            state,
                            kind,
                            buffer,
                        ),
                    },
                },
            }
        },
    }
}

/// The values in a tensor's buffer.
pub open spec fn buffer_values(
    fb: Seq<u8>,
    tensor: TableView,
    index: int,
    expected: Seq<usize>,
    count: nat,
    state: bool,
    kind: u8,
    buffer: VectorView,
) -> Result<Seq<F32>, ErrorView> {
    let needed = if kind == 0 {
        4 * count
    } else {
        count
    };
    if buffer.len == 0 && state && kind == 0 {
        Ok(zero_values(count))
    } else if buffer.len == 0 || needed != buffer.len {
        Err(
            at_byte(
                buffer.pos,
                "tensor "@ + dec_int(index) + " buffer size does not match "@ + dec_list(
                    expected.map_values(|x: usize| x as nat),
                ),
            ),
        )
    } else {
        finite_content(
            fb,
            tensor,
            index,
            kind,
            buffer.pos,
            fb.subrange(buffer.pos, buffer.pos + buffer.len),
        )
    }
}

/// The values in a tensor's bytes, which must be finite.
pub open spec fn finite_content(
    fb: Seq<u8>,
    tensor: TableView,
    index: int,
    kind: u8,
    pos: int,
    data: Seq<u8>,
) -> Result<Seq<F32>, ErrorView> {
    let values = if kind == 0 {
        Ok(floats_in(data))
    } else {
        quantized_of(fb, tensor, index, kind, data)
    };
    match values {
        Err(e) => Err(e),
        Ok(values) => if !all_finite(values) {
            Err(at_byte(pos, "tensor "@ + dec_int(index) + " has nonfinite weights"@))
        } else {
            Ok(values)
        },
    }
}

fn tensor_text(before: &str, index: i32, after: &str) -> (r: String)
    ensures
        r@ == before@ + dec_int(index as int) + after@,
{
    let mut s: String = String::from_str(before);
    push_dec_int(&mut s, index as i64);
    s.append(after);
    s
}

impl<'a> Tensors<'a> {
    /// Both vectors lie in the same file, and hold offsets.
    pub open spec fn wf(&self) -> bool {
        &&& self.tensors.wf()
        &&& self.buffers.wf()
        &&& self.tensors.fb == self.buffers.fb
    }

    pub open spec fn data(&self) -> Seq<u8> {
        self.tensors.fb.data()
    }

    fn tensor(&self, index: i32) -> (r: Result<Table<'a>, Error>)
        requires
            self.wf(),
        ensures
            shows(r, tensor_of(self.data(), self@, index as int)),
            r matches Ok(t) ==> t.wf() && t.fb == self.tensors.fb,
    {
        if index < 0 {
            let mut text: String = String::from_str("missing or invalid tensor index ");
            push_dec_int(&mut text, index as i64);
            return Err(at_byte_error(self.tensors.pos, text.as_str()));
        }
        self.tensors.table(index as usize)
    }

    fn shape(&self, index: i32) -> (r: Result<Vec<usize>, Error>)
        requires
            self.wf(),
        ensures
            shows(r, shape_of(self.data(), self@, index as int)),
    {
        let tensor: Table<'a> = self.tensor(index)?;
        let shape: Vector<'a> = tensor.vector(4, 4)?;
        let mut dims: Vec<usize> = Vec::new();
        let mut i: usize = 0;
        let total: usize = shape.fb.0.len();
        while i < shape.len
            invariant
                i <= shape.len,
                shape.wf(),
                shape.width == 4,
                shape.fb.data() == self.data(),
                total == self.data().len(),
                tensor_of(self.data(), self@, index as int) == Ok::<TableView, ErrorView>(tensor@),
                vector_of(self.data(), tensor@, 4, 4) == Ok::<VectorView, ErrorView>(shape@),
                dims_of(self.data(), shape@, index as int, i as nat) == Ok::<
                    Seq<usize>,
                    ErrorView,
                >(dims@),
            decreases shape.len - i,
        {
            match shape.i32(i) {
                Err(e) => {
                    proof {
                        lemma_dims_error(
                            self.data(),
                            shape@,
                            index as int,
                            (i + 1) as nat,
                            shape.len as nat,
                        );
                    }
                    return Err(e);
                },
                Ok(dim) => {
                    if dim < 0 {
                        let mut text: String = tensor_text("negative tensor ", index, " dimension ");
                        push_dec_int(&mut text, dim as i64);
                        proof {
                            lemma_dims_error(
                                self.data(),
                                shape@,
                                index as int,
                                (i + 1) as nat,
                                shape.len as nat,
                            );
                        }
                        return Err(at_byte_error(shape.pos + i * 4, text.as_str()));
                    }
                    dims.push(dim as usize);
                },
            }
            i += 1;
        }
        Ok(dims)
    }

    fn quantized(&self, tensor: Table<'a>, index: i32, kind: u8, data: &[u8]) -> (r: Result<
        Vec<F32>,
        Error,
    >)
        requires
            tensor.wf(),
            tensor.fb == self.tensors.fb,
        ensures
            shows(r, quantized_of(self.data(), tensor@, index as int, kind, data@)),
    {
        match tensor.field(12, 4)? {
            None => Err(
                at_byte_error(
                    tensor.pos,
                    tensor_text("tensor ", index, " has no quantization").as_str(),
                ),
            ),
            Some(field) => {
                let p: usize = tensor.fb.indirect(field)?;
                let quant: Table<'a> = tensor.fb.table(p)?;
                let scale: Vector<'a> = quant.vector(8, 4)?;
                let zero: Vector<'a> = quant.vector(10, 8)?;
                if scale.len != 1 || zero.len != 1 {
                    return Err(
                        at_byte_error(
                            quant.pos,
                            tensor_text(
                                "tensor ",
                                index,
                                " expected per-tensor quantization",
                            ).as_str(),
                        ),
                    );
                }
                let total: usize = tensor.fb.0.len();
                let scale_bytes: &[u8] = tensor.fb.bytes(scale.pos, 4)?;
                let zero_bytes: &[u8] = tensor.fb.bytes(zero.pos, 8)?;
                dequantize(
                    data,
                    kind,
                    F32 { bits: read_u32(scale_bytes) },
                    to_signed64(read_u64(zero_bytes)),
                    scale.pos,
                )
            },
        }
    }

    fn read(&self, index: i32, expected: &[usize], state: bool) -> (r: Result<Vec<F32>, Error>)
        requires
            self.wf(),
        ensures
            shows(r, tensor_values(self.data(), self@, index as int, expected@, state)),
    {
        proof {
            reveal(tensor_values);
        }
        let tensor: Table<'a> = self.tensor(index)?;
        let shape: Vec<usize> = self.shape(index)?;
        if !same_sizes(shape.as_slice(), expected) {
            let mut text: String = tensor_text("tensor ", index, " shape does not match ");
            push_dec_list(&mut text, expected);
            return Err(at_byte_error(tensor.pos, text.as_str()));
        }
        match shape_size(expected) {
            None => Err(at_byte_error(tensor.pos, "tensor shape overflow")),
            Some(count) => self.read_sized(tensor, index, expected, count, state),
        }
    }

    fn read_sized(
        &self,
        tensor: Table<'a>,
        index: i32,
        expected: &[usize],
        count: usize,
        state: bool,
    ) -> (r: Result<Vec<F32>, Error>)
        requires
            self.wf(),
            tensor.wf(),
            tensor.fb == self.tensors.fb,
        ensures
            shows(
                r,
                sized_values(
                    self.data(),
                    self@,
                    tensor@,
                    index as int,
                    expected@,
                    count as nat,
                    state,
                ),
            ),
    {
        let kind: u8 = tensor.u8(6, 0)?;
        if !(kind == 0 || kind == 3 || kind == 9) {
            let mut text: String = tensor_text("tensor ", index, ": unsupported weight type ");
            push_dec(&mut text, kind as u64);
            return Err(Error::Unsupported(text));
        }
        let slot: u32 = tensor.u32(8, 0)?;
        let holder: Table<'a> = self.buffers.table(slot as usize)?;
        let buffer: Vector<'a> = holder.vector(4, 1)?;
        self.read_buffer(tensor, index, expected, count, state, kind, buffer)
    }

    fn read_buffer(
        &self,
        tensor: Table<'a>,
        index: i32,
        expected: &[usize],
        count: usize,
        state: bool,
        kind: u8,
        buffer: Vector<'a>,
    ) -> (r: Result<Vec<F32>, Error>)
        requires
            tensor.wf(),
            tensor.fb == self.tensors.fb,
            buffer.wf(),
            buffer.fb == self.tensors.fb,
            buffer.width == 1,
        ensures
            shows(
                r,
                buffer_values(
                    self.data(),
                    tensor@,
                    index as int,
                    expected@,
                    count as nat,
                    state,
                    kind,
                    buffer@,
                ),
            ),
    {
        if buffer.len == 0 && state && kind == 0 {
            return Ok(zeros(count));
        }
        let needed: Option<usize> = if kind == 0 {
            count.checked_mul(4)
        } else {
            Some(count)
        };
        let fits: bool = match needed {
            None => false,
            Some(n) => n == buffer.len,
        };
        if buffer.len == 0 || !fits {
            let mut text: String = tensor_text("tensor ", index, " buffer size does not match ");
            push_dec_list(&mut text, expected);
            return Err(at_byte_error(buffer.pos, text.as_str()));
        }
        proof {
            assert(buffer.len * buffer.width == buffer.len) by (nonlinear_arith)
                requires
                    buffer.width == 1,
            ;
            let total = tensor.fb.0.len();
            assert(bytes_at(self.data(), buffer.pos as int, buffer.len as int) is Ok);
        }
        let bytes: &[u8] = tensor.fb.bytes(buffer.pos, buffer.len)?;
        self.read_content(tensor, index, kind, buffer.pos, bytes)
    }

    fn read_content(
        &self,
        tensor: Table<'a>,
        index: i32,
        kind: u8,
        pos: usize,
        bytes: &[u8],
    ) -> (r: Result<Vec<F32>, Error>)
        requires
            tensor.wf(),
            tensor.fb == self.tensors.fb,
            kind == 0 ==> bytes@.len() % 4 == 0,
        ensures
            shows(
                r,
                finite_content(self.data(), tensor@, index as int, kind, pos as int, bytes@),
            ),
    {
        let values: Vec<F32> = if kind == 0 {
            read_floats(bytes)
        } else {
            self.quantized(tensor, index, kind, bytes)?
        };
        if !finite_values(values.as_slice()) {
            return Err(
                at_byte_error(
                    pos,
                    tensor_text("tensor ", index, " has nonfinite weights").as_str(),
                ),
            );
        }
        Ok(values)
    }
}


/// The values of the tensor in an operator's input slot.
pub open spec fn slot_values(
    fb: Seq<u8>,
    ts: TensorsView,
    inputs: VectorView,
    slot: int,
    expected: Seq<usize>,
    state: bool,
) -> Result<Seq<F32>, ErrorView> {
    match i32_of(fb, inputs, slot) {
        Err(e) => Err(e),
        Ok(index) => tensor_values(fb, ts, index as int, expected, state),
    }
}

/// The shape of one gate's recurrent kernel.
pub open spec fn recurrent_shape(hidden: usize, diagonal: bool) -> Seq<usize> {
    if diagonal {
        seq![hidden]
    } else {
        seq![hidden, hidden]
    }
}

/// Input kernels, recurrent kernels and biases of the first `n` gates.
pub open spec fn gates_of(
    fb: Seq<u8>,
    ts: TensorsView,
    inputs: VectorView,
    start: int,
    bias_start: int,
    hidden: usize,
    width: usize,
    diagonal: bool,
    n: nat,
) -> Result<(Seq<F32>, Seq<F32>, Seq<F32>), ErrorView>
    decreases n,
{
    if n == 0 {
        Ok((Seq::empty(), Seq::empty(), Seq::empty()))
    } else {
        match gates_of(
            fb,
            ts,
            inputs,
            start,
            bias_start,
            hidden,
            width,
            diagonal,
            (n - 1) as nat,
        ) {
            Err(e) => Err(e),
            Ok((a, b, c)) => match slot_values(
                fb,
                ts,
                inputs,
                start + n - 1,
                seq![hidden, width],
                false,
            ) {
                Err(e) => Err(e),
                Ok(x) => match slot_values(
                    fb,
                    ts,
                    inputs,
                    start + 4 + n - 1,
                    recurrent_shape(hidden, diagonal),
                    false,
                ) {
                    Err(e) => Err(e),
                    Ok(y) => match slot_values(
                        fb,
                        ts,
                        inputs,
                        bias_start + n - 1,
                        seq![hidden],
                        false,
                    ) {
                        Err(e) => Err(e),
                        Ok(z) => Ok((a + x, b + y, c + z)),
                    },
                },
            },
        }
    }
}

proof fn lemma_gates_error(
    fb: Seq<u8>,
    ts: TensorsView,
    inputs: VectorView,
    start: int,
    bias_start: int,
    hidden: usize,
    width: usize,
    diagonal: bool,
    n: nat,
    m: nat,
)
    requires
        n <= m,
        gates_of(fb, ts, inputs, start, bias_start, hidden, width, diagonal, n) is Err,
    ensures
        gates_of(fb, ts, inputs, start, bias_start, hidden, width, diagonal, m) == gates_of(
            fb,
            ts,
            inputs,
            start,
            bias_start,
            hidden,
            width,
            diagonal,
            n,
        ),
    decreases m,
{
    if n < m {
        lemma_gates_error(
            fb,
            ts,
            inputs,
            start,
            bias_start,
            hidden,
            width,
            diagonal,
            n,
            (m - 1) as nat,
        );
    }
}

/// Where the tensors of one direction stand among an operator's inputs.
#[derive(Debug, Clone, Copy)]
pub struct Slots {
    pub start: usize,
    pub bias_start: usize,
    pub state_start: usize,
}

/// The weights of one direction.
#[verifier::opaque]
pub open spec fn direction_of(
    fb: Seq<u8>,
    ts: TensorsView,
    inputs: VectorView,
    slots: Slots,
    width: usize,
    diagonal: bool,
) -> Result<DirectionView, ErrorView> {
    match i32_of(fb, inputs, slots.bias_start as int) {
        Err(e) => Err(e),
        Ok(bias) => match shape_of(fb, ts, bias as int) {
            Err(e) => Err(e),
            Ok(shape) => if shape.len() != 1 || shape[0] == 0 {
                Err(at_byte(inputs.pos, "expected nonempty gate bias vector"@))
            } else {
                sized_direction(fb, ts, inputs, slots, shape[0], width, diagonal)
            },
        },
    }
}

/// The weights of one direction with a known number of units.
pub open spec fn sized_direction(
    fb: Seq<u8>,
    ts: TensorsView,
    inputs: VectorView,
    slots: Slots,
    hidden: usize,
    width: usize,
    diagonal: bool,
) -> Result<DirectionView, ErrorView> {
    match gates_of(
        fb,
        ts,
        inputs,
        slots.start as int,
        slots.bias_start as int,
        hidden,
        width,
        diagonal,
        GATES as nat,
    ) {
        Err(e) => Err(e),
        Ok((a, b, c)) => match slot_values(
            fb,
            ts,
            inputs,
            slots.state_start as int,
            seq![1usize, hidden],
            true,
        ) {
            Err(e) => Err(e),
            Ok(activation) => match slot_values(
                fb,
                ts,
                inputs,
                slots.state_start + 1,
                seq![1usize, hidden],
                true,
            ) {
                Err(e) => Err(e),
                Ok(cell) => Ok(
                    DirectionView {
                        input_kernels: a,
                        recurrent_kernels: b,
                        diagonal,
                        biases: c,
                        initial_activation: activation,
                        initial_cell: cell,
                        hidden,
                        input: width,
                    },
                ),
            },
        },
    }
}

fn extend_values(out: &mut Vec<F32>, values: Vec<F32>)
    ensures
        final(out)@ == old(out)@ + values@,
{
    let mut i: usize = 0;
    assert(out@ =~= old(out)@ + values@.take(0));
    while i < values.len()
        invariant
            i <= values@.len(),
            out@ == old(out)@ + values@.take(i as int),
        decreases values@.len() - i,
    {
        out.push(values[i]);
        i += 1;
        assert(out@ =~= old(out)@ + values@.take(i as int));
    }
    assert(values@.take(i as int) =~= values@);
}

impl<'a> Tensors<'a> {
    fn read_slot(&self, inputs: Vector<'a>, slot: usize, expected: &[usize], state: bool) -> (r:
        Result<Vec<F32>, Error>)
        requires
            self.wf(),
            inputs.wf(),
            inputs.fb == self.tensors.fb,
        ensures
            shows(
                r,
                slot_values(self.data(), self@, inputs@, slot as int, expected@, state),
            ),
    {
        let index: i32 = inputs.i32(slot)?;
        self.read(index, expected, state)
    }

    fn gates(
        &self,
        inputs: Vector<'a>,
        slots: Slots,
        hidden: usize,
        width: usize,
        diagonal: bool,
    ) -> (r: Result<(Vec<F32>, Vec<F32>, Vec<F32>), Error>)
        requires
            self.wf(),
            inputs.wf(),
            inputs.fb == self.tensors.fb,
            slots.start <= 100,
            slots.bias_start <= 100,
        ensures
            match (
                r,
                gates_of(
                    self.data(),
                    self@,
                    inputs@,
                    slots.start as int,
                    slots.bias_start as int,
                    hidden,
                    width,
                    diagonal,
                    GATES as nat,
                ),
            ) {
                (Ok((a, b, c)), Ok((x, y, z))) => a@ == x && b@ == y && c@ == z,
                (Err(e), Err(f)) => e@ == f,
                _ => false,
            },
    {
        let mut input_kernels: Vec<F32> = Vec::new();
        let mut recurrent_kernels: Vec<F32> = Vec::new();
        let mut biases: Vec<F32> = Vec::new();
        let kernel_shape: Vec<usize> = vec![hidden, width];
        let rec_shape: Vec<usize> = if diagonal {
            vec![hidden]
        } else {
            vec![hidden, hidden]
        };
        let bias_shape: Vec<usize> = vec![hidden];
        assert(kernel_shape@ =~= seq![hidden, width]);
        assert(rec_shape@ =~= recurrent_shape(hidden, diagonal));
        assert(bias_shape@ =~= seq![hidden]);
        let mut gate: usize = 0;
        while gate < GATES
            invariant
                gate <= GATES,
                self.wf(),
                inputs.wf(),
                inputs.fb == self.tensors.fb,
                slots.start <= 100,
                slots.bias_start <= 100,
                kernel_shape@ == seq![hidden, width],
                rec_shape@ == recurrent_shape(hidden, diagonal),
                bias_shape@ == seq![hidden],
                gates_of(
                    self.data(),
                    self@,
                    inputs@,
                    slots.start as int,
                    slots.bias_start as int,
                    hidden,
                    width,
                    diagonal,
                    gate as nat,
                ) == Ok::<(Seq<F32>, Seq<F32>, Seq<F32>), ErrorView>(
                    (input_kernels@, recurrent_kernels@, biases@),
                ),
            decreases GATES - gate,
        {
            proof {
                if gates_of(
                    self.data(),
                    self@,
                    inputs@,
                    slots.start as int,
                    slots.bias_start as int,
                    hidden,
                    width,
                    diagonal,
                    (gate + 1) as nat,
                ) is Err {
                    lemma_gates_error(
                        self.data(),
                        self@,
                        inputs@,
                        slots.start as int,
                        slots.bias_start as int,
                        hidden,
                        width,
                        diagonal,
                        (gate + 1) as nat,
                        GATES as nat,
                    );
                }
            }
            let kernel: Vec<F32> = self.read_slot(
                inputs,
                slots.start + gate,
                kernel_shape.as_slice(),
                false,
            )?;
            let recurrent: Vec<F32> = self.read_slot(
                inputs,
                slots.start + 4 + gate,
                rec_shape.as_slice(),
                false,
            )?;
            let bias: Vec<F32> = self.read_slot(
                inputs,
                slots.bias_start + gate,
                bias_shape.as_slice(),
                false,
            )?;
            extend_values(&mut input_kernels, kernel);
            extend_values(&mut recurrent_kernels, recurrent);
            extend_values(&mut biases, bias);
            gate += 1;
        }
        Ok((input_kernels, recurrent_kernels, biases))
    }

    fn direction(&self, inputs: Vector<'a>, slots: Slots, width: usize, diagonal: bool) -> (r:
        Result<DirectionWeights, Error>)
        requires
            self.wf(),
            inputs.wf(),
            inputs.fb == self.tensors.fb,
            slots.start <= 100,
            slots.bias_start <= 100,
            slots.state_start <= 100,
        ensures
            shows(r, direction_of(self.data(), self@, inputs@, slots, width, diagonal)),
    {
        proof {
            reveal(direction_of);
        }
        let bias: i32 = inputs.i32(slots.bias_start)?;
        let bias_shape: Vec<usize> = self.shape(bias)?;
        if bias_shape.len() != 1 || bias_shape[0] == 0 {
            return Err(at_byte_error(inputs.pos, "expected nonempty gate bias vector"));
        }
        let hidden: usize = bias_shape[0];
        let (input_kernels, recurrent_kernels, biases) = self.gates(
            inputs,
            slots,
            hidden,
            width,
            diagonal,
        )?;
        let state_shape: Vec<usize> = vec![1usize, hidden];
        assert(state_shape@ =~= seq![1usize, hidden]);
        let initial_activation: Vec<F32> = self.read_slot(
            inputs,
            slots.state_start,
            state_shape.as_slice(),
            true,
        )?;
        let initial_cell: Vec<F32> = self.read_slot(
            inputs,
            slots.state_start + 1,
            state_shape.as_slice(),
            true,
        )?;
        Ok(
            DirectionWeights {
                input_kernels,
                recurrent_kernels,
                diagonal,
                biases,
                initial_activation,
                initial_cell,
                hidden,
                input: width,
            },
        )
    }
}


/// The parts of a model that its operators refer to.
#[derive(Debug, Clone, Copy)]
pub struct Graph<'a> {
    pub tensors: Tensors<'a>,
    pub codes: Vector<'a>,
    pub ops: Vector<'a>,
}

/// Where the parts of a model lie.
pub struct GraphView {
    pub tensors: TensorsView,
    pub codes: VectorView,
    pub ops: VectorView,
}

impl<'a> View for Graph<'a> {
    type V = GraphView;

    open spec fn view(&self) -> GraphView {
        GraphView { tensors: self.tensors@, codes: self.codes@, ops: self.ops@ }
    }
}

impl<'a> Graph<'a> {
    /// All parts lie in the same file.
    pub open spec fn wf(&self) -> bool {
        &&& self.tensors.wf()
        &&& self.codes.wf()
        &&& self.ops.wf()
        &&& self.codes.fb == self.tensors.tensors.fb
        &&& self.ops.fb == self.tensors.tensors.fb
    }

    pub open spec fn data(&self) -> Seq<u8> {
        self.tensors.data()
    }
}

/// How far the operators have been followed.
pub struct Progress {
    /// The tensor that the next operator must take.
    pub current: i32,
    /// Its width.
    pub width: usize,
    pub layers: Vec<LayerWeights>,
    /// Weights and bias of the linear head.
    pub head: Option<(Vec<F32>, Vec<F32>)>,
}

/// A [`Progress`] by its contents.
#[verifier::ext_equal]
pub struct ProgressView {
    pub current: i32,
    pub width: usize,
    pub layers: Seq<LayerView>,
    pub head: Option<(Seq<F32>, Seq<F32>)>,
}

impl View for Progress {
    type V = ProgressView;

    open spec fn view(&self) -> ProgressView {
        ProgressView {
            current: self.current,
            width: self.width,
            layers: self.layers@.map_values(|l: LayerWeights| l@),
            head: match self.head {
                None => None,
                Some((w, b)) => Some((w@, b@)),
            },
        }
    }
}

/// The builtin code and the custom code of an operator. Codes below 127 stand
/// in an older field of one byte.
pub open spec fn code_of(fb: Seq<u8>, code: TableView) -> Result<(int, Seq<u8>), ErrorView> {
    match u32_of(fb, code, 10, 0) {
        Err(e) => Err(e),
        Ok(raw) => {
            let builtin = if signed32(raw as int) < 127 {
                match u8_of(fb, code, 4, 0) {
                    Err(e) => Err(e),
                    Ok(old) => Ok(signed8(old as int)),
                }
            } else {
                Ok(signed32(raw as int))
            };
            match builtin {
                Err(e) => Err(e),
                Ok(builtin) => match string_of(fb, code, 6) {
                    Err(e) => Err(e),
                    Ok(custom) => Ok((builtin, custom)),
                },
            }
        },
    }
}

fn op_code<'a>(code: Table<'a>) -> (r: Result<(i32, &'a [u8]), Error>)
    requires
        code.wf(),
    ensures
        match (r, code_of(code.fb.data(), code@)) {
            (Ok((a, b)), Ok((x, y))) => a == x && b@ == y,
            (Err(e), Err(f)) => e@ == f,
            _ => false,
        },
{
    let recent: i32 = to_signed32(code.u32(10, 0)?);
    let builtin: i32 = if recent < 127 {
        let old: u8 = code.u8(4, 0)?;
        if old < 128 {
            old as i32
        } else {
            (old as i32) - 256
        }
    } else {
        recent
    };
    let custom: &'a [u8] = code.string(6)?;
    Ok((builtin, custom))
}

/// A layer with both its directions behind the layers so far.
pub open spec fn layer_added(
    fb: Seq<u8>,
    g: GraphView,
    op: TableView,
    inputs: VectorView,
    forward: Slots,
    backward: Slots,
    diagonal: bool,
    clip: F32,
    options: Seq<u8>,
    s: ProgressView,
) -> Result<ProgressView, ErrorView> {
    match direction_of(fb, g.tensors, inputs, forward, s.width, diagonal) {
        Err(e) => Err(e),
        Ok(f) => match direction_of(fb, g.tensors, inputs, backward, s.width, diagonal) {
            Err(e) => Err(e),
            Ok(b) => if f.hidden + b.hidden > usize::MAX {
                Err(at_byte(op.pos, "output width overflow"@))
            } else {
                Ok(
                    ProgressView {
                        current: s.current,
                        width: (f.hidden + b.hidden) as usize,
                        layers: s.layers.push(
                            LayerView {
                                forward: f,
                                backward: b,
                                cell_clip: clip,
                                custom_options: options,
                            },
                        ),
                        head: s.head,
                    },
                )
            },
        },
    }
}

fn add_layer<'a>(
    g: Graph<'a>,
    op: Table<'a>,
    inputs: Vector<'a>,
    forward: Slots,
    backward: Slots,
    diagonal: bool,
    clip: F32,
    options: Vec<u8>,
    s: Progress,
) -> (r: Result<Progress, Error>)
    requires
        g.wf(),
        inputs.wf(),
        inputs.fb == g.tensors.tensors.fb,
        forward.start <= 100,
        forward.bias_start <= 100,
        forward.state_start <= 100,
        backward.start <= 100,
        backward.bias_start <= 100,
        backward.state_start <= 100,
    ensures
        shows(
            r,
            layer_added(
                g.data(),
                g@,
                op@,
                inputs@,
                forward,
                backward,
                diagonal,
                clip,
                options@,
                s@,
            ),
        ),
{
    let f: DirectionWeights = g.tensors.direction(inputs, forward, s.width, diagonal)?;
    let b: DirectionWeights = g.tensors.direction(inputs, backward, s.width, diagonal)?;
    match f.hidden.checked_add(b.hidden) {
        None => Err(at_byte_error(op.pos, "output width overflow")),
        Some(width) => {
            let mut layers: Vec<LayerWeights> = s.layers;
            let ghost before = layers@;
            let layer: LayerWeights = LayerWeights {
                forward: f,
                backward: b,
                cell_clip: clip,
                custom_options: options,
            };
            layers.push(layer);
            assert(layers@.map_values(|l: LayerWeights| l@) =~= before.map_values(
                |l: LayerWeights| l@,
            ).push(layer@));
            Ok(Progress { current: s.current, width, layers, head: s.head })
        },
    }
}

/// Slots of the custom operator's directions.
pub open spec fn indy_forward() -> Slots {
    Slots { start: 1, bias_start: 9, state_start: 25 }
}

pub open spec fn indy_backward() -> Slots {
    Slots { start: 13, bias_start: 21, state_start: 27 }
}

/// Slots of the builtin operator's directions.
pub open spec fn lstm_forward() -> Slots {
    Slots { start: 1, bias_start: 12, state_start: 35 }
}

pub open spec fn lstm_backward() -> Slots {
    Slots { start: 18, bias_start: 29, state_start: 37 }
}

/// A layer of the custom operator.
pub open spec fn indy_layer(
    fb: Seq<u8>,
    g: GraphView,
    op: TableView,
    inputs: VectorView,
    s: ProgressView,
) -> Result<ProgressView, ErrorView> {
    if inputs.len != 29 {
        Err(at_byte(op.pos, "expected 29 IndyLSTM inputs"@))
    } else {
        match vector_of(fb, op, 14, 1) {
            Err(e) => Err(e),
            Ok(raw) => {
                let options = fb.subrange(raw.pos, raw.pos + raw.len);
                match clip_of(options, raw.pos) {
                    Err(e) => Err(e),
                    Ok(clip) => layer_added(
                        fb,
                        g,
                        op,
                        inputs,
                        indy_forward(),
                        indy_backward(),
                        true,
                        clip,
                        options,
                        s,
                    ),
                }
            },
        }
    }
}

fn read_indy<'a>(g: Graph<'a>, op: Table<'a>, inputs: Vector<'a>, s: Progress) -> (r: Result<
    Progress,
    Error,
>)
    requires
        g.wf(),
        op.wf(),
        op.fb == g.tensors.tensors.fb,
        inputs.wf(),
        inputs.fb == g.tensors.tensors.fb,
    ensures
        shows(r, indy_layer(g.data(), g@, op@, inputs@, s@)),
{
    if inputs.len != 29 {
        return Err(at_byte_error(op.pos, "expected 29 IndyLSTM inputs"));
    }
    let raw: Vector<'a> = op.vector(14, 1)?;
    proof {
        assert(raw.len * raw.width == raw.len) by (nonlinear_arith)
            requires
                raw.width == 1,
        ;
        let total = op.fb.0.len();
        assert(bytes_at(g.data(), raw.pos as int, raw.len as int) is Ok);
    }
    let raw_options: &[u8] = op.fb.bytes(raw.pos, raw.len)?;
    let clip: F32 = custom_options(raw_options, raw.pos)?;
    add_layer(
        g,
        op,
        inputs,
        Slots { start: 1, bias_start: 9, state_start: 25 },
        Slots { start: 13, bias_start: 21, state_start: 27 },
        true,
        clip,
        vstd::slice::slice_to_vec(raw_options),
        s,
    )
}

/// Input slots of the builtin operator that must be empty: peepholes,
/// projections and auxiliary inputs.
pub open spec fn is_unused_slot(j: int) -> bool {
    9 <= j <= 11 || 16 <= j <= 17 || 26 <= j <= 28 || 33 <= j <= 34 || 39 <= j < 48
}

/// Input slots of the builtin operator that must be filled: its input gates.
pub open spec fn is_gate_slot(j: int) -> bool {
    j == 1 || j == 5 || j == 12 || j == 18 || j == 22 || j == 29
}

/// An element of a vector of numbers that is known to be there.
pub open spec fn entry(fb: Seq<u8>, v: VectorView, j: int) -> int {
    signed32(le(fb.subrange(v.pos + j * 4, v.pos + j * 4 + 4)) as int)
}

/// A vector's element within its length can be read.
proof fn lemma_entry(v: Vector<'_>, j: int)
    requires
        v.wf(),
        v.width == 4,
        0 <= j < v.len,
    ensures
        i32_of(v.fb.data(), v@, j) == Ok::<i32, ErrorView>(entry(v.fb.data(), v@, j) as i32),
        i32::MIN <= entry(v.fb.data(), v@, j) <= i32::MAX,
{
    let total = v.fb.0.len();
    assert(j * 4 + 4 <= v.len * v.width);
    let b = v.fb.data().subrange(v.pos + j * 4, v.pos + j * 4 + 4);
    crate::bytes::lemma_le_unfold(b);
}

/// Whether the slots of the builtin operator that must be empty are.
pub open spec fn unused_empty(fb: Seq<u8>, inputs: VectorView) -> bool {
    forall|j: int| #[trigger] is_unused_slot(j) ==> entry(fb, inputs, j) == -1
}

/// Whether the slots of the builtin operator that must be filled are.
pub open spec fn gates_filled(fb: Seq<u8>, inputs: VectorView) -> bool {
    forall|j: int| #[trigger] is_gate_slot(j) ==> entry(fb, inputs, j) >= 0
}

fn check_slots<'a>(inputs: Vector<'a>) -> (r: (bool, bool))
    requires
        inputs.wf(),
        inputs.width == 4,
        inputs.len == 48,
    ensures
        r.0 == unused_empty(inputs.fb.data(), inputs@),
        r.1 == gates_filled(inputs.fb.data(), inputs@),
{
    let mut empty: bool = true;
    let mut filled: bool = true;
    let mut j: usize = 0;
    while j < 48
        invariant
            j <= 48,
            inputs.wf(),
            inputs.width == 4,
            inputs.len == 48,
            empty == (forall|i: int| #[trigger]
                is_unused_slot(i) && i < j ==> entry(inputs.fb.data(), inputs@, i) == -1),
            filled == (forall|i: int| #[trigger]
                is_gate_slot(i) && i < j ==> entry(inputs.fb.data(), inputs@, i) >= 0),
        decreases 48 - j,
    {
        proof {
            lemma_entry(inputs, j as int);
        }
        let value: i32 = match inputs.i32(j) {
            Ok(value) => value,
            Err(_) => -1,
        };
        let unused: bool = (9 <= j && j <= 11) || (16 <= j && j <= 17) || (26 <= j && j <= 28) || (33
            <= j && j <= 34) || 39 <= j;
        let gate: bool = j == 1 || j == 5 || j == 12 || j == 18 || j == 22 || j == 29;
        assert(unused == is_unused_slot(j as int));
        assert(gate == is_gate_slot(j as int));
        if unused && value != -1 {
            empty = false;
        }
        if gate && value < 0 {
            filled = false;
        }
        j += 1;
    }
    (empty, filled)
}

/// An operator that is not supported.
pub open spec fn bad_operator(k: int, text: Seq<char>) -> ErrorView {
    ErrorView::Unsupported("operator "@ + dec(k as nat) + text)
}

fn bad_operator_error(k: usize, text: &str) -> (r: Error)
    ensures
        r@ == bad_operator(k as int, text@),
{
    Error::Unsupported(text_with("operator ", k as u64, text))
}

/// The cell clipping threshold of the builtin operator, whose other options must
/// be: tanh activation, merged outputs, no projection clipping, no asymmetric
/// inputs.
pub open spec fn lstm_clip(fb: Seq<u8>, k: int, options: TableView) -> Result<F32, ErrorView> {
    let bad = bad_operator(k, ": unsupported builtin bidirectional LSTM options"@);
    match u32_of(fb, options, 6, 0) {
        Err(e) => Err(e),
        Ok(clip) => match u8_of(fb, options, 4, 0) {
            Err(e) => Err(e),
            Ok(activation) => if activation != 4 {
                Err(bad)
            } else {
                match u8_of(fb, options, 10, 0) {
                    Err(e) => Err(e),
                    Ok(merged) => if merged == 0 {
                        Err(bad)
                    } else {
                        match u32_of(fb, options, 8, 0) {
                            Err(e) => Err(e),
                            Ok(projection) => if (F32 { bits: projection }).index() != 0 {
                                Err(bad)
                            } else {
                                lstm_clip_rest(fb, k, options, F32 { bits: clip })
                            },
                        }
                    },
                }
            },
        },
    }
}

/// The last of the builtin operator's options. Time-major or not is immaterial.
pub open spec fn lstm_clip_rest(fb: Seq<u8>, k: int, options: TableView, clip: F32) -> Result<
    F32,
    ErrorView,
> {
    let bad = bad_operator(k, ": unsupported builtin bidirectional LSTM options"@);
    match u8_of(fb, options, 14, 0) {
        Err(e) => Err(e),
        Ok(asymmetric) => if asymmetric != 0 || !(clip.finite() && (clip.index() == 0
            || !clip.negative())) {
            Err(bad)
        } else {
            match u8_of(fb, options, 12, 1) {
                Err(e) => Err(e),
                Ok(major) => Ok(clip),
            }
        },
    }
}

fn read_lstm_clip<'a>(k: usize, options: Table<'a>) -> (r: Result<F32, Error>)
    requires
        options.wf(),
    ensures
        agrees(r, lstm_clip(options.fb.data(), k as int, options@)),
{
    let bad: &str = ": unsupported builtin bidirectional LSTM options";
    let clip: F32 = F32 { bits: options.u32(6, 0)? };
    if options.u8(4, 0)? != 4 {
        return Err(bad_operator_error(k, bad));
    }
    if options.u8(10, 0)? == 0 {
        return Err(bad_operator_error(k, bad));
    }
    let projection: F32 = F32 { bits: options.u32(8, 0)? };
    if !projection.is_zero() {
        return Err(bad_operator_error(k, bad));
    }
    if options.u8(14, 0)? != 0 {
        return Err(bad_operator_error(k, bad));
    }
    if !clip.is_finite() || !clip.is_nonnegative() {
        return Err(bad_operator_error(k, bad));
    }
    let _time_major: u8 = options.u8(12, 1)?;
    Ok(clip)
}

/// A layer of the builtin operator.
pub open spec fn lstm_layer(
    fb: Seq<u8>,
    g: GraphView,
    k: int,
    op: TableView,
    inputs: VectorView,
    s: ProgressView,
) -> Result<ProgressView, ErrorView> {
    if inputs.len != 48 {
        Err(at_byte(op.pos, "expected 48 builtin bidirectional LSTM inputs"@))
    } else if !unused_empty(fb, inputs) {
        Err(
            bad_operator(
                k,
                ": peepholes, projections and auxiliary LSTM inputs are unsupported"@,
            ),
        )
    } else if !gates_filled(fb, inputs) {
        Err(bad_operator(k, ": CIFG LSTM inputs are unsupported"@))
    } else {
        match options_of(fb, op, 69) {
            Err(e) => Err(e),
            Ok(options) => match lstm_clip(fb, k, options) {
                Err(e) => Err(e),
                Ok(clip) => layer_added(
                    fb,
                    g,
                    op,
                    inputs,
                    lstm_forward(),
                    lstm_backward(),
                    false,
                    clip,
                    Seq::empty(),
                    s,
                ),
            },
        }
    }
}

fn read_lstm<'a>(g: Graph<'a>, k: usize, op: Table<'a>, inputs: Vector<'a>, s: Progress) -> (r:
    Result<Progress, Error>)
    requires
        g.wf(),
        op.wf(),
        op.fb == g.tensors.tensors.fb,
        inputs.wf(),
        inputs.width == 4,
        inputs.fb == g.tensors.tensors.fb,
    ensures
        shows(r, lstm_layer(g.data(), g@, k as int, op@, inputs@, s@)),
{
    if inputs.len != 48 {
        return Err(at_byte_error(op.pos, "expected 48 builtin bidirectional LSTM inputs"));
    }
    let (empty, filled) = check_slots(inputs);
    if !empty {
        return Err(
            bad_operator_error(
                k,
                ": peepholes, projections and auxiliary LSTM inputs are unsupported",
            ),
        );
    }
    if !filled {
        return Err(bad_operator_error(k, ": CIFG LSTM inputs are unsupported"));
    }
    let options: Table<'a> = builtin_options(op, 69)?;
    let clip: F32 = read_lstm_clip(k, options)?;
    add_layer(
        g,
        op,
        inputs,
        Slots { start: 1, bias_start: 12, state_start: 35 },
        Slots { start: 18, bias_start: 29, state_start: 37 },
        false,
        clip,
        Vec::new(),
        s,
    )
}

/// Whether a fully connected operator is plain and linear.
pub open spec fn plain_of(fb: Seq<u8>, options: TableView) -> Result<bool, ErrorView> {
    match u8_of(fb, options, 4, 0) {
        Err(e) => Err(e),
        Ok(a) => if a != 0 {
            Ok(false)
        } else {
            match u8_of(fb, options, 6, 0) {
                Err(e) => Err(e),
                Ok(b) => if b != 0 {
                    Ok(false)
                } else {
                    match u8_of(fb, options, 10, 0) {
                        Err(e) => Err(e),
                        Ok(c) => Ok(c == 0),
                    }
                },
            }
        },
    }
}

fn is_plain<'a>(options: Table<'a>) -> (r: Result<bool, Error>)
    requires
        options.wf(),
    ensures
        agrees(r, plain_of(options.fb.data(), options@)),
{
    if options.u8(4, 0)? != 0 {
        return Ok(false);
    }
    if options.u8(6, 0)? != 0 {
        return Ok(false);
    }
    Ok(options.u8(10, 0)? == 0)
}

/// The linear head.
pub open spec fn head_added(
    fb: Seq<u8>,
    g: GraphView,
    k: int,
    op: TableView,
    inputs: VectorView,
    s: ProgressView,
) -> Result<ProgressView, ErrorView> {
    if s.layers.len() == 0 || k != g.ops.len - 1 || inputs.len != 3 {
        Err(
            ErrorView::Unsupported(
                "expected exactly one final fully connected layer (gesture/scribe heads are unsupported)"@,
            ),
        )
    } else {
        match options_of(fb, op, 8) {
            Err(e) => Err(e),
            Ok(options) => match plain_of(fb, options) {
                Err(e) => Err(e),
                Ok(plain) => if !plain {
                    Err(ErrorView::Unsupported("expected a plain linear fully connected layer"@))
                } else {
                    head_values(fb, g, op, inputs, s)
                },
            },
        }
    }
}

/// The weights and the bias of the linear head.
pub open spec fn head_values(
    fb: Seq<u8>,
    g: GraphView,
    op: TableView,
    inputs: VectorView,
    s: ProgressView,
) -> Result<ProgressView, ErrorView> {
    match i32_of(fb, inputs, 2) {
        Err(e) => Err(e),
        Ok(bias_index) => match shape_of(fb, g.tensors, bias_index as int) {
            Err(e) => Err(e),
            Ok(shape) => if shape.len() != 1 || shape[0] == 0 {
                Err(at_byte(op.pos, "expected nonempty fully connected bias vector"@))
            } else {
                match tensor_values(fb, g.tensors, bias_index as int, shape, false) {
                    Err(e) => Err(e),
                    Ok(bias) => match slot_values(
                        fb,
                        g.tensors,
                        inputs,
                        1,
                        seq![shape[0], s.width],
                        false,
                    ) {
                        Err(e) => Err(e),
                        Ok(weights) => Ok(
                            ProgressView {
                                current: s.current,
                                width: shape[0],
                                layers: s.layers,
                                head: Some((weights, bias)),
                            },
                        ),
                    },
                }
            },
        },
    }
}

fn read_head<'a>(g: Graph<'a>, k: usize, op: Table<'a>, inputs: Vector<'a>, s: Progress) -> (r:
    Result<Progress, Error>)
    requires
        g.wf(),
        op.wf(),
        op.fb == g.tensors.tensors.fb,
        inputs.wf(),
        inputs.fb == g.tensors.tensors.fb,
        k < g.ops.len,
    ensures
        shows(r, head_added(g.data(), g@, k as int, op@, inputs@, s@)),
{
    if s.layers.len() == 0 || k != g.ops.len - 1 || inputs.len != 3 {
        return Err(
            unsupported(
                "expected exactly one final fully connected layer (gesture/scribe heads are unsupported)",
            ),
        );
    }
    let options: Table<'a> = builtin_options(op, 8)?;
    if !is_plain(options)? {
        return Err(unsupported("expected a plain linear fully connected layer"));
    }
    let bias_index: i32 = inputs.i32(2)?;
    let bias_shape: Vec<usize> = g.tensors.shape(bias_index)?;
    if bias_shape.len() != 1 || bias_shape[0] == 0 {
        return Err(at_byte_error(op.pos, "expected nonempty fully connected bias vector"));
    }
    let num_classes: usize = bias_shape[0];
    let fc_bias: Vec<F32> = g.tensors.read(bias_index, bias_shape.as_slice(), false)?;
    let weight_shape: Vec<usize> = vec![num_classes, s.width];
    assert(weight_shape@ =~= seq![num_classes, s.width]);
    let fc_weights: Vec<F32> = g.tensors.read_slot(inputs, 1, weight_shape.as_slice(), false)?;
    Ok(
        Progress {
            current: s.current,
            width: num_classes,
            layers: s.layers,
            head: Some((fc_weights, fc_bias)),
        },
    )
}


/// How an error names a custom code.
pub open spec fn custom_name(custom: Seq<u8>) -> Seq<char> {
    if vstd::utf8::valid_utf8(custom) {
        vstd::utf8::decode_utf8(custom)
    } else {
        "<non-UTF8 custom code>"@
    }
}

/// What an operator adds, by its code.
pub open spec fn weights_added(
    fb: Seq<u8>,
    g: GraphView,
    k: int,
    op: TableView,
    builtin: int,
    custom: Seq<u8>,
    inputs: VectorView,
    s: ProgressView,
) -> Result<ProgressView, ErrorView> {
    if custom == encode_utf8("bidirectional_sequence_indylstm"@) {
        indy_layer(fb, g, op, inputs, s)
    } else if builtin == 52 {
        lstm_layer(fb, g, k, op, inputs, s)
    } else if builtin == 9 {
        head_added(fb, g, k, op, inputs, s)
    } else {
        Err(
            ErrorView::Unsupported(
                "operator "@ + dec(k as nat) + ": unsupported operator "@ + quoted_text(
                    custom_name(custom),
                ) + " (builtin "@ + dec_int(builtin)
                    + "); gesture/scribe nets are not handwriting sequence nets"@,
            ),
        )
    }
}

fn add_weights<'a>(
    g: Graph<'a>,
    k: usize,
    op: Table<'a>,
    builtin: i32,
    custom: &'a [u8],
    inputs: Vector<'a>,
    s: Progress,
) -> (r: Result<Progress, Error>)
    requires
        g.wf(),
        op.wf(),
        op.fb == g.tensors.tensors.fb,
        inputs.wf(),
        inputs.width == 4,
        inputs.fb == g.tensors.tensors.fb,
        k < g.ops.len,
    ensures
        shows(
            r,
            weights_added(g.data(), g@, k as int, op@, builtin as int, custom@, inputs@, s@),
        ),
{
    if same_bytes(custom, "bidirectional_sequence_indylstm".as_bytes()) {
        read_indy(g, op, inputs, s)
    } else if builtin == 52 {
        read_lstm(g, k, op, inputs, s)
    } else if builtin == 9 {
        read_head(g, k, op, inputs, s)
    } else {
        let name: &str = match core::str::from_utf8(custom) {
            Ok(name) => name,
            Err(_) => "<non-UTF8 custom code>",
        };
        let mut text: String = text_with("operator ", k as u64, ": unsupported operator ");
        text.append(quoted(name).as_str());
        text.append(" (builtin ");
        push_dec_int(&mut text, builtin as i64);
        text.append("); gesture/scribe nets are not handwriting sequence nets");
        Err(Error::Unsupported(text))
    }
}

/// The tensor that an operator leaves, which must have the width of its weights.
pub open spec fn output_taken(
    fb: Seq<u8>,
    g: GraphView,
    k: int,
    op: TableView,
    outputs: VectorView,
    s: ProgressView,
) -> Result<ProgressView, ErrorView> {
    match i32_of(fb, outputs, 0) {
        Err(e) => Err(e),
        Ok(current) => match shape_of(fb, g.tensors, current as int) {
            Err(e) => Err(e),
            Ok(shape) => if shape.len() > 0 && shape.last() != s.width {
                Err(
                    at_byte(
                        op.pos,
                        "operator "@ + dec(k as nat) + " output width does not match weights"@,
                    ),
                )
            } else {
                match tensor_of(fb, g.tensors, current as int) {
                    Err(e) => Err(e),
                    Ok(tensor) => match u8_of(fb, tensor, 6, 0) {
                        Err(e) => Err(e),
                        Ok(kind) => if kind != 0 {
                            Err(bad_operator(k, ": expected float output"@))
                        } else {
                            Ok(
                                ProgressView {
                                    current,
                                    width: s.width,
                                    layers: s.layers,
                                    head: s.head,
                                },
                            )
                        },
                    },
                }
            },
        },
    }
}

fn take_output<'a>(g: Graph<'a>, k: usize, op: Table<'a>, outputs: Vector<'a>, s: Progress) -> (r:
    Result<Progress, Error>)
    requires
        g.wf(),
        outputs.wf(),
        outputs.fb == g.tensors.tensors.fb,
    ensures
        shows(r, output_taken(g.data(), g@, k as int, op@, outputs@, s@)),
{
    let current: i32 = outputs.i32(0)?;
    let shape: Vec<usize> = g.tensors.shape(current)?;
    if shape.len() > 0 && shape[shape.len() - 1] != s.width {
        let text: String = text_with(
            "operator ",
            k as u64,
            " output width does not match weights",
        );
        return Err(at_byte_error(op.pos, text.as_str()));
    }
    let tensor: Table<'a> = g.tensors.tensor(current)?;
    if tensor.u8(6, 0)? != 0 {
        return Err(bad_operator_error(k, ": expected float output"));
    }
    Ok(Progress { current, width: s.width, layers: s.layers, head: s.head })
}

/// One operator of the chain.
#[verifier::opaque]
pub open spec fn op_step(fb: Seq<u8>, g: GraphView, k: int, s: ProgressView) -> Result<
    ProgressView,
    ErrorView,
> {
    match table_of(fb, g.ops, k) {
        Err(e) => Err(e),
        Ok(op) => match u32_of(fb, op, 4, 0) {
            Err(e) => Err(e),
            Ok(slot) => match table_of(fb, g.codes, slot as int) {
                Err(e) => Err(e),
                Ok(code) => match code_of(fb, code) {
                    Err(e) => Err(e),
                    Ok((builtin, custom)) => match vector_of(fb, op, 6, 4) {
                        Err(e) => Err(e),
                        Ok(inputs) => match vector_of(fb, op, 8, 4) {
                            Err(e) => Err(e),
                            Ok(outputs) => if inputs.len == 0 || entry(fb, inputs, 0) != s.current
                                || outputs.len != 1 {
                                Err(
                                    at_byte(
                                        op.pos,
                                        "operator "@ + dec(k as nat)
                                            + " is not a connected single-output chain"@,
                                    ),
                                )
                            } else {
                                match weights_added(fb, g, k, op, builtin, custom, inputs, s) {
                                    Err(e) => Err(e),
                                    Ok(t) => output_taken(fb, g, k, op, outputs, t),
                                }
                            },
                        },
                    },
                },
            },
        },
    }
}

fn follow<'a>(g: Graph<'a>, k: usize, s: Progress) -> (r: Result<Progress, Error>)
    requires
        g.wf(),
        k < g.ops.len,
    ensures
        shows(r, op_step(g.data(), g@, k as int, s@)),
{
    proof {
        reveal(op_step);
    }
    let op: Table<'a> = g.ops.table(k)?;
    let slot: u32 = op.u32(4, 0)?;
    let code: Table<'a> = g.codes.table(slot as usize)?;
    let (builtin, custom) = op_code(code)?;
    let inputs: Vector<'a> = op.vector(6, 4)?;
    let outputs: Vector<'a> = op.vector(8, 4)?;
    let mut connected: bool = false;
    if inputs.len > 0 {
        proof {
            lemma_entry(inputs, 0);
        }
        connected = inputs.i32(0)? == s.current && outputs.len == 1;
    }
    if !connected {
        let text: String = text_with(
            "operator ",
            k as u64,
            " is not a connected single-output chain",
        );
        return Err(at_byte_error(op.pos, text.as_str()));
    }
    let t: Progress = add_weights(g, k, op, builtin, custom, inputs, s)?;
    take_output(g, k, op, outputs, t)
}

/// The first `n` operators of the chain.
pub open spec fn ops_followed(fb: Seq<u8>, g: GraphView, start: ProgressView, n: nat) -> Result<
    ProgressView,
    ErrorView,
>
    decreases n,
{
    if n == 0 {
        Ok(start)
    } else {
        match ops_followed(fb, g, start, (n - 1) as nat) {
            Err(e) => Err(e),
            Ok(s) => op_step(fb, g, n - 1, s),
        }
    }
}

proof fn lemma_ops_error(fb: Seq<u8>, g: GraphView, start: ProgressView, n: nat, m: nat)
    requires
        n <= m,
        ops_followed(fb, g, start, n) is Err,
    ensures
        ops_followed(fb, g, start, m) == ops_followed(fb, g, start, n),
    decreases m,
{
    if n < m {
        lemma_ops_error(fb, g, start, n, (m - 1) as nat);
    }
}

/// The network of a graph whose input tensor is `current`.
pub open spec fn network_of(
    fb: Seq<u8>,
    g: GraphView,
    graph: TableView,
    current: i32,
    output: int,
) -> Result<NetworkView, ErrorView> {
    let start = ProgressView { current, width: 10, layers: Seq::empty(), head: None };
    match ops_followed(fb, g, start, g.ops.len as nat) {
        Err(e) => Err(e),
        Ok(s) => if s.current != output {
            Err(at_byte(graph.pos, "graph output is not the final operator output"@))
        } else {
            match s.head {
                None => Err(
                    ErrorView::Unsupported(
                        "network does not end in fully connected handwriting logits; gesture/scribe nets are unsupported"@,
                    ),
                ),
                Some((weights, bias)) => Ok(
                    NetworkView {
                        layers: s.layers,
                        num_classes: bias.len() as usize,
                        fc_weights: weights,
                        fc_bias: bias,
                        input_size: 10,
                    },
                ),
            }
        },
    }
}

fn read_network<'a>(g: Graph<'a>, graph: Table<'a>, current: i32, output: i32) -> (r: Result<
    NetworkWeights,
    Error,
>)
    requires
        g.wf(),
    ensures
        shows(r, network_of(g.data(), g@, graph@, current, output as int)),
{
    let ghost start = ProgressView { current, width: 10, layers: Seq::empty(), head: None };
    let mut s: Progress = Progress { current, width: 10, layers: Vec::new(), head: None };
    assert(s@ =~= start);
    let mut k: usize = 0;
    while k < g.ops.len
        invariant
            k <= g.ops.len,
            g.wf(),
            ops_followed(g.data(), g@, start, k as nat) == Ok::<ProgressView, ErrorView>(s@),
            start == (ProgressView { current, width: 10, layers: Seq::empty(), head: None }),
        decreases g.ops.len - k,
    {
        proof {
            if op_step(g.data(), g@, k as int, s@) is Err {
                lemma_ops_error(g.data(), g@, start, (k + 1) as nat, g.ops.len as nat);
            }
        }
        s = follow(g, k, s)?;
        k += 1;
    }
    if s.current != output {
        return Err(at_byte_error(graph.pos, "graph output is not the final operator output"));
    }
    match s.head {
        None => Err(
            unsupported(
                "network does not end in fully connected handwriting logits; gesture/scribe nets are unsupported",
            ),
        ),
        Some((fc_weights, fc_bias)) => {
            let num_classes: usize = fc_bias.len();
            Ok(
                NetworkWeights {
                    layers: s.layers,
                    num_classes,
                    fc_weights,
                    fc_bias,
                    input_size: 10,
                },
            )
        },
    }
}

/// The network of a graph, once its input is known to be handwriting.
pub open spec fn graph_network(
    fb: Seq<u8>,
    model: TableView,
    graph: TableView,
    inputs: VectorView,
    outputs: VectorView,
    ts: TensorsView,
) -> Result<NetworkView, ErrorView> {
    match i32_of(fb, inputs, 0) {
        Err(e) => Err(e),
        Ok(current) => match shape_of(fb, ts, current as int) {
            Err(e) => Err(e),
            Ok(shape) => if shape != seq![1usize, 1usize, 10usize] {
                Err(
                    ErrorView::Unsupported(
                        "expected handwriting input [1, 1, 10] (gesture/scribe nets are unsupported)"@,
                    ),
                )
            } else {
                match tensor_of(fb, ts, current as int) {
                    Err(e) => Err(e),
                    Ok(tensor) => match u8_of(fb, tensor, 6, 0) {
                        Err(e) => Err(e),
                        Ok(kind) => if kind != 0 {
                            Err(
                                ErrorView::Unsupported(
                                    "only float-input hybrid networks are supported"@,
                                ),
                            )
                        } else {
                            match vector_of(fb, model, 6, 4) {
                                Err(e) => Err(e),
                                Ok(codes) => match vector_of(fb, graph, 10, 4) {
                                    Err(e) => Err(e),
                                    Ok(ops) => network_of(
                                        fb,
                                        GraphView { tensors: ts, codes, ops },
                                        graph,
                                        current,
                                        entry(fb, outputs, 0),
                                    ),
                                },
                            }
                        },
                    },
                }
            },
        },
    }
}

fn read_graph<'a>(
    model: Table<'a>,
    graph: Table<'a>,
    inputs: Vector<'a>,
    outputs: Vector<'a>,
    tensors: Tensors<'a>,
) -> (r: Result<NetworkWeights, Error>)
    requires
        model.wf(),
        graph.wf(),
        inputs.wf(),
        outputs.wf(),
        outputs.width == 4,
        outputs.len == 1,
        tensors.wf(),
        model.fb == tensors.tensors.fb,
        graph.fb == tensors.tensors.fb,
        inputs.fb == tensors.tensors.fb,
        outputs.fb == tensors.tensors.fb,
    ensures
        shows(
            r,
            graph_network(tensors.data(), model@, graph@, inputs@, outputs@, tensors@),
        ),
{
    let current: i32 = inputs.i32(0)?;
    let shape: Vec<usize> = tensors.shape(current)?;
    let expected: Vec<usize> = vec![1usize, 1usize, 10usize];
    assert(expected@ =~= seq![1usize, 1usize, 10usize]);
    if !same_sizes(shape.as_slice(), expected.as_slice()) {
        return Err(
            unsupported(
                "expected handwriting input [1, 1, 10] (gesture/scribe nets are unsupported)",
            ),
        );
    }
    let tensor: Table<'a> = tensors.tensor(current)?;
    if tensor.u8(6, 0)? != 0 {
        return Err(unsupported("only float-input hybrid networks are supported"));
    }
    let codes: Vector<'a> = model.vector(6, 4)?;
    let ops: Vector<'a> = graph.vector(10, 4)?;
    proof {
        lemma_entry(outputs, 0);
    }
    let output: i32 = outputs.i32(0)?;
    read_network(Graph { tensors, codes, ops }, graph, current, output)
}

/// The network in a file.
pub open spec fn network_in(fb: Seq<u8>) -> Result<NetworkView, ErrorView> {
    match bytes_at(fb, 4, 4) {
        Err(e) => Err(e),
        Ok(identifier) => if identifier != encode_utf8("TFL3"@) {
            Err(at_byte(4, "expected TFL3 identifier"@))
        } else {
            match indirect_at(fb, 0) {
                Err(e) => Err(e),
                Ok(root) => match table_at(fb, root) {
                    Err(e) => Err(e),
                    Ok(model) => match vector_of(fb, model, 8, 4) {
                        Err(e) => Err(e),
                        Ok(graphs) => if graphs.len != 1 {
                            Err(
                                ErrorView::Unsupported(
                                    "expected exactly one subgraph (gesture/scribe nets are unsupported)"@,
                                ),
                            )
                        } else {
                            match table_of(fb, graphs, 0) {
                                Err(e) => Err(e),
                                Ok(graph) => model_network(fb, model, graph),
                            }
                        },
                    },
                },
            }
        },
    }
}

/// The network of a model's one graph.
pub open spec fn model_network(fb: Seq<u8>, model: TableView, graph: TableView) -> Result<
    NetworkView,
    ErrorView,
> {
    match vector_of(fb, graph, 6, 4) {
        Err(e) => Err(e),
        Ok(inputs) => match vector_of(fb, graph, 8, 4) {
            Err(e) => Err(e),
            Ok(outputs) => if inputs.len != 1 || outputs.len != 1 {
                Err(
                    ErrorView::Unsupported(
                        "expected one handwriting input and output (gesture/scribe nets are unsupported)"@,
                    ),
                )
            } else {
                match vector_of(fb, graph, 4, 4) {
                    Err(e) => Err(e),
                    Ok(tensors) => match vector_of(fb, model, 12, 4) {
                        Err(e) => Err(e),
                        Ok(buffers) => graph_network(
                            fb,
                            model,
                            graph,
                            inputs,
                            outputs,
                            TensorsView { tensors, buffers },
                        ),
                    },
                }
            },
        },
    }
}

fn read_model<'a>(model: Table<'a>, graph: Table<'a>) -> (r: Result<NetworkWeights, Error>)
    requires
        model.wf(),
        graph.wf(),
        model.fb == graph.fb,
    ensures
        shows(r, model_network(model.fb.data(), model@, graph@)),
{
    let inputs: Vector<'a> = graph.vector(6, 4)?;
    let outputs: Vector<'a> = graph.vector(8, 4)?;
    if inputs.len != 1 || outputs.len != 1 {
        return Err(
            unsupported(
                "expected one handwriting input and output (gesture/scribe nets are unsupported)",
            ),
        );
    }
    let tensors: Vector<'a> = graph.vector(4, 4)?;
    let buffers: Vector<'a> = model.vector(12, 4)?;
    read_graph(model, graph, inputs, outputs, Tensors { tensors, buffers })
}

/// Extracts a stack of bidirectional LSTMs followed by one linear head.
///
/// Gesture classifiers and scribe networks are rejected on purpose: their heads
/// are not per-timestep handwriting logits. Peepholes, projections, CIFG and
/// auxiliary inputs fail loudly.
pub fn load_weights(data: &[u8]) -> (r: Result<NetworkWeights, Error>)
    ensures
        shows(r, network_in(data@)),
        r matches Ok(w) ==> network_sound(w@),
{
    proof {
        lemma_network_sound(data@);
    }
    let fb: Flatbuffer<'_> = Flatbuffer(data);
    let identifier: &[u8] = fb.bytes(4, 4)?;
    if !same_bytes(identifier, "TFL3".as_bytes()) {
        return Err(at_byte_error(4, "expected TFL3 identifier"));
    }
    let root: usize = fb.indirect(0)?;
    let model: Table<'_> = fb.table(root)?;
    let graphs: Vector<'_> = model.vector(8, 4)?;
    if graphs.len != 1 {
        return Err(
            unsupported(
                "expected exactly one subgraph (gesture/scribe nets are unsupported)",
            ),
        );
    }
    let graph: Table<'_> = graphs.table(0)?;
    read_model(model, graph)
}

} // verus!
