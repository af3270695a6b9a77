//! A bounds-checked flatbuffer reader.
//!
//! Slot numbers are vtable offsets, not schema field indices. Every pointer and
//! extent is checked before it is followed.
use vstd::prelude::*;

use crate::bytes::{le, read_u16, read_u32};
use crate::error::{text_with, text_with2, Error, ErrorView};
use crate::proto::agrees;
use crate::text::{dec, dec_int, push_dec_int};

verus! {

/// A malformed spot of the file.
pub open spec fn at_byte(pos: int, text: Seq<char>) -> ErrorView {
    ErrorView::Format("byte "@ + dec(pos as nat) + ": "@ + text)
}

pub fn at_byte_error(pos: usize, text: &str) -> (r: Error)
    ensures
        r@ == at_byte(pos as int, text@),
{
    let mut s: String = text_with("byte ", pos as u64, ": ");
    s.append(text);
    Error::Format(s)
}

/// A number of 32 bits, read as signed.
pub open spec fn signed32(x: int) -> int {
    if x < 0x8000_0000 {
        x
    } else {
        x - 0x1_0000_0000
    }
}

/// A byte, read as signed.
pub open spec fn signed8(x: int) -> int {
    if x < 128 {
        x
    } else {
        x - 256
    }
}

pub fn to_signed32(x: u32) -> (r: i32)
    ensures
        r == signed32(x as int),
{
    if x < 0x8000_0000 {
        x as i32
    } else {
        ((x as i64) - 0x1_0000_0000) as i32
    }
}

pub fn same_bytes(a: &[u8], b: &[u8]) -> (r: bool)
    ensures
        r == (a@ == b@),
{
    if a.len() != b.len() {
        return false;
    }
    let mut i: usize = 0;
    while i < a.len()
        invariant
            i <= a@.len(),
            a@.len() == b@.len(),
            forall|j: int| 0 <= j < i ==> a@[j] == b@[j],
        decreases a@.len() - i,
    {
        if a[i] != b[i] {
            return false;
        }
        i += 1;
    }
    assert(a@ =~= b@);
    true
}

/// A whole file.
#[derive(Debug, Clone, Copy)]
pub struct Flatbuffer<'a>(pub &'a [u8]);

/// A table: its own extent and its vtable's.
#[derive(Debug, Clone, Copy)]
pub struct Table<'a> {
    pub fb: Flatbuffer<'a>,
    pub pos: usize,
    pub vtable: usize,
    pub vsize: usize,
    pub size: usize,
}

/// A vector of elements of a fixed width.
#[derive(Debug, Clone, Copy)]
pub struct Vector<'a> {
    pub fb: Flatbuffer<'a>,
    pub pos: usize,
    pub len: usize,
    pub width: usize,
}

/// Where a table lies.
pub struct TableView {
    pub pos: int,
    pub vtable: int,
    pub vsize: int,
    pub size: int,
}

/// Where a vector lies.
pub struct VectorView {
    pub pos: int,
    pub len: int,
    pub width: int,
}

impl<'a> View for Table<'a> {
    type V = TableView;

    open spec fn view(&self) -> TableView {
        TableView {
            pos: self.pos as int,
            vtable: self.vtable as int,
            vsize: self.vsize as int,
            size: self.size as int,
        }
    }
}

impl<'a> View for Vector<'a> {
    type V = VectorView;

    open spec fn view(&self) -> VectorView {
        VectorView { pos: self.pos as int, len: self.len as int, width: self.width as int }
    }
}

/// The `len` bytes at `pos`.
pub open spec fn bytes_at(fb: Seq<u8>, pos: int, len: int) -> Result<Seq<u8>, ErrorView> {
    if pos + len > usize::MAX {
        Err(at_byte(pos, "extent overflow ("@ + dec(len as nat) + " bytes)"@))
    } else if pos + len > fb.len() {
        Err(at_byte(pos, "need "@ + dec(len as nat) + " bytes, file length "@ + dec(fb.len())))
    } else {
        Ok(fb.subrange(pos, pos + len))
    }
}

/// The number of 16 bits at `pos`.
pub open spec fn u16_at(fb: Seq<u8>, pos: int) -> Result<u16, ErrorView> {
    match bytes_at(fb, pos, 2) {
        Ok(b) => Ok(le(b) as u16),
        Err(e) => Err(e),
    }
}

/// The number of 32 bits at `pos`.
pub open spec fn u32_at(fb: Seq<u8>, pos: int) -> Result<u32, ErrorView> {
    match bytes_at(fb, pos, 4) {
        Ok(b) => Ok(le(b) as u32),
        Err(e) => Err(e),
    }
}

/// Where the relative offset at `pos` points.
pub open spec fn indirect_at(fb: Seq<u8>, pos: int) -> Result<int, ErrorView> {
    match u32_at(fb, pos) {
        Ok(distance) => if distance < 4 {
            Err(at_byte(pos, "invalid relative offset "@ + dec(distance as nat)))
        } else if pos + distance > usize::MAX {
            Err(at_byte(pos, "relative offset overflow"@))
        } else {
            match bytes_at(fb, pos + distance, 4) {
                Ok(b) => Ok(pos + distance),
                Err(e) => Err(e),
            }
        },
        Err(e) => Err(e),
    }
}

/// The sizes in a vtable, checked against the file.
pub open spec fn vtable_at(fb: Seq<u8>, pos: int, vtable: int) -> Result<TableView, ErrorView> {
    match u16_at(fb, vtable) {
        Err(e) => Err(e),
        Ok(vsize) => match bytes_at(fb, vtable, 4) {
            Err(e) => Err(e),
            Ok(b) => {
                let size = le(fb.subrange(vtable + 2, vtable + 4));
                if vsize < 4 || vsize % 2 != 0 || size < 4 {
                    Err(
                        at_byte(
                            vtable,
                            "invalid vtable/table size "@ + dec(vsize as nat) + "/"@ + dec(size),
                        ),
                    )
                } else {
                    match bytes_at(fb, vtable, vsize as int) {
                        Err(e) => Err(e),
                        Ok(b) => match bytes_at(fb, pos, size as int) {
                            Err(e) => Err(e),
                            Ok(b) => Ok(
                                TableView { pos, vtable, vsize: vsize as int, size: size as int },
                            ),
                        },
                    }
                }
            },
        },
    }
}

/// The table at `pos`. Its vtable may lie on either side of it.
pub open spec fn table_at(fb: Seq<u8>, pos: int) -> Result<TableView, ErrorView> {
    match u32_at(fb, pos) {
        Err(e) => Err(e),
        Ok(raw) => {
            let distance = signed32(raw as int);
            if !(0 <= pos - distance <= usize::MAX) {
                Err(at_byte(pos, "invalid vtable offset "@ + dec_int(distance)))
            } else {
                vtable_at(fb, pos, pos - distance)
            }
        },
    }
}

/// Where the field of a slot lies, or nothing where it is absent.
pub open spec fn field_of(fb: Seq<u8>, t: TableView, slot: int, width: int) -> Result<
    Option<int>,
    ErrorView,
> {
    if slot >= t.vsize {
        Ok(None)
    } else {
        match u16_at(fb, t.vtable + slot) {
            Err(e) => Err(e),
            Ok(offset) => if offset == 0 {
                Ok(None)
            } else if offset < 4 || offset + width > t.size {
                Err(
                    at_byte(
                        t.vtable + slot,
                        "field points outside table at byte "@ + dec(t.pos as nat),
                    ),
                )
            } else {
                Ok(Some(t.pos + offset))
            },
        }
    }
}

/// The byte of a slot.
pub open spec fn u8_of(fb: Seq<u8>, t: TableView, slot: int, default: u8) -> Result<u8, ErrorView> {
    match field_of(fb, t, slot, 1) {
        Err(e) => Err(e),
        Ok(None) => Ok(default),
        Ok(Some(p)) => Ok(fb[p]),
    }
}

/// The number of a slot.
pub open spec fn u32_of(fb: Seq<u8>, t: TableView, slot: int, default: u32) -> Result<
    u32,
    ErrorView,
> {
    match field_of(fb, t, slot, 4) {
        Err(e) => Err(e),
        Ok(None) => Ok(default),
        Ok(Some(p)) => u32_at(fb, p),
    }
}

/// The vector of a slot; an absent one is empty.
pub open spec fn vector_of(fb: Seq<u8>, t: TableView, slot: int, width: int) -> Result<
    VectorView,
    ErrorView,
> {
    match field_of(fb, t, slot, 4) {
        Err(e) => Err(e),
        Ok(None) => Ok(VectorView { pos: t.pos, len: 0, width }),
        Ok(Some(field)) => match indirect_at(fb, field) {
            Err(e) => Err(e),
            Ok(start) => match u32_at(fb, start) {
                Err(e) => Err(e),
                Ok(len) => if len * width > usize::MAX {
                    Err(at_byte(start, "vector size overflow"@))
                } else {
                    match bytes_at(fb, start + 4, len * width) {
                        Err(e) => Err(e),
                        Ok(b) => Ok(VectorView { pos: start + 4, len: len as int, width }),
                    }
                },
            },
        },
    }
}

/// The bytes of a string's slot, behind which a zero byte must stand.
pub open spec fn string_of(fb: Seq<u8>, t: TableView, slot: int) -> Result<Seq<u8>, ErrorView> {
    match vector_of(fb, t, slot, 1) {
        Err(e) => Err(e),
        Ok(v) => match field_of(fb, t, slot, 4) {
            Err(e) => Err(e),
            Ok(None) => Ok(Seq::empty()),
            Ok(Some(p)) => match bytes_at(fb, v.pos + v.len, 1) {
                Err(e) => Err(e),
                Ok(b) => if b[0] != 0 {
                    Err(at_byte(v.pos, "string lacks terminator"@))
                } else {
                    Ok(fb.subrange(v.pos, v.pos + v.len))
                },
            },
        },
    }
}

/// Where an element lies.
pub open spec fn element_of(v: VectorView, index: int) -> Result<int, ErrorView> {
    if index >= v.len {
        Err(
            at_byte(
                v.pos,
                "vector index "@ + dec(index as nat) + " exceeds length "@ + dec(v.len as nat),
            ),
        )
    } else {
        Ok(v.pos + index * v.width)
    }
}

/// An element as a signed number.
pub open spec fn i32_of(fb: Seq<u8>, v: VectorView, index: int) -> Result<i32, ErrorView> {
    match element_of(v, index) {
        Err(e) => Err(e),
        Ok(p) => match u32_at(fb, p) {
            Err(e) => Err(e),
            Ok(x) => Ok(signed32(x as int) as i32),
        },
    }
}

/// An element as the table that it points to.
pub open spec fn table_of(fb: Seq<u8>, v: VectorView, index: int) -> Result<TableView, ErrorView> {
    match element_of(v, index) {
        Err(e) => Err(e),
        Ok(p) => match indirect_at(fb, p) {
            Err(e) => Err(e),
            Ok(q) => table_at(fb, q),
        },
    }
}

/// That an outcome's view is what a specification says.
pub open spec fn shows<T: View>(r: Result<T, Error>, s: Result<T::V, ErrorView>) -> bool {
    match (r, s) {
        (Ok(a), Ok(b)) => a@ == b,
        (Err(e), Err(f)) => e@ == f,
        _ => false,
    }
}

impl<'a> Flatbuffer<'a> {
    pub open spec fn data(&self) -> Seq<u8> {
        self.0@
    }

    pub fn bytes(self, pos: usize, len: usize) -> (r: Result<&'a [u8], Error>)
        ensures
            match (r, bytes_at(self.data(), pos as int, len as int)) {
                (Ok(a), Ok(b)) => a@ == b,
                (Err(e), Err(f)) => e@ == f,
                _ => false,
            },
    {
        match pos.checked_add(len) {
            None => {
                let text: String = text_with("extent overflow (", len as u64, " bytes)");
                Err(at_byte_error(pos, text.as_str()))
            },
            Some(end) => if end > self.0.len() {
                let text: String = text_with2(
                    "need ",
                    len as u64,
                    " bytes, file length ",
                    self.0.len() as u64,
                    "",
                );
                proof {
                    reveal_strlit("");
                    assert(text@ =~= "need "@ + dec(len as nat) + " bytes, file length "@ + dec(
                        self.data().len(),
                    ));
                }
                Err(at_byte_error(pos, text.as_str()))
            } else {
                Ok(vstd::slice::slice_subrange(self.0, pos, end))
            },
        }
    }

    pub fn u16(self, pos: usize) -> (r: Result<u16, Error>)
        ensures
            agrees(r, u16_at(self.data(), pos as int)),
    {
        let b: &[u8] = self.bytes(pos, 2)?;
        Ok(read_u16(b))
    }

    pub fn u32(self, pos: usize) -> (r: Result<u32, Error>)
        ensures
            agrees(r, u32_at(self.data(), pos as int)),
    {
        let b: &[u8] = self.bytes(pos, 4)?;
        Ok(read_u32(b))
    }

    pub fn indirect(self, pos: usize) -> (r: Result<usize, Error>)
        ensures
            match (r, indirect_at(self.data(), pos as int)) {
                (Ok(a), Ok(b)) => a == b,
                (Err(e), Err(f)) => e@ == f,
                _ => false,
            },
            r matches Ok(a) ==> a + 4 <= self.data().len(),
    {
        let distance: usize = self.u32(pos)? as usize;
        if distance < 4 {
            let text: String = text_with("invalid relative offset ", distance as u64, "");
            proof {
                reveal_strlit("");
                assert(text@ =~= "invalid relative offset "@ + dec(distance as nat));
            }
            return Err(at_byte_error(pos, text.as_str()));
        }
        match pos.checked_add(distance) {
            None => Err(at_byte_error(pos, "relative offset overflow")),
            Some(target) => {
                let _checked: &[u8] = self.bytes(target, 4)?;
                Ok(target)
            },
        }
    }

    pub fn table(self, pos: usize) -> (r: Result<Table<'a>, Error>)
        ensures
            shows(r, table_at(self.data(), pos as int)),
            r matches Ok(t) ==> t.wf() && t.fb == self,
    {
        let distance: i32 = to_signed32(self.u32(pos)?);
        let vtable: i128 = (pos as i128) - (distance as i128);
        if vtable < 0 || vtable > usize::MAX as i128 {
            let mut text: String = String::from_str("invalid vtable offset ");
            push_dec_int(&mut text, distance as i64);
            return Err(at_byte_error(pos, text.as_str()));
        }
        let vtable: usize = vtable as usize;
        let vsize: usize = self.u16(vtable)? as usize;
        let header: &[u8] = self.bytes(vtable, 4)?;
        let size: usize = read_u16(vstd::slice::slice_subrange(header, 2, 4)) as usize;
        proof {
            assert(header@.subrange(2, 4) =~= self.data().subrange(vtable + 2, vtable + 4));
        }
        if vsize < 4 || vsize % 2 != 0 || size < 4 {
            let text: String = text_with2(
                "invalid vtable/table size ",
                vsize as u64,
                "/",
                size as u64,
                "",
            );
            proof {
                reveal_strlit("");
                assert(text@ =~= "invalid vtable/table size "@ + dec(vsize as nat) + "/"@ + dec(
                    size as nat,
                ));
            }
            return Err(at_byte_error(vtable, text.as_str()));
        }
        let _checked: &[u8] = self.bytes(vtable, vsize)?;
        let _checked: &[u8] = self.bytes(pos, size)?;
        Ok(Table { fb: self, pos, vtable, vsize, size })
    }
}

impl<'a> Table<'a> {
    /// Both extents lie within the file.
    pub open spec fn wf(&self) -> bool {
        &&& self.vtable + self.vsize <= self.fb.data().len()
        &&& self.pos + self.size <= self.fb.data().len()
    }

    pub fn field(self, slot: usize, width: usize) -> (r: Result<Option<usize>, Error>)
        requires
            self.wf(),
        ensures
            match (r, field_of(self.fb.data(), self@, slot as int, width as int)) {
                (Ok(None), Ok(None)) => true,
                (Ok(Some(a)), Ok(Some(b))) => a == b && a + width <= self.fb.data().len(),
                (Err(e), Err(f)) => e@ == f,
                _ => false,
            },
    {
        let ghost total = self.fb.0.len();
        if slot >= self.vsize {
            return Ok(None);
        }
        let offset: usize = self.fb.u16(self.vtable + slot)? as usize;
        if offset == 0 {
            return Ok(None);
        }
        let outside: bool = match offset.checked_add(width) {
            None => true,
            Some(end) => end > self.size,
        };
        if offset < 4 || outside {
            let text: String = text_with(
                "field points outside table at byte ",
                self.pos as u64,
                "",
            );
            proof {
                reveal_strlit("");
                assert(text@ =~= "field points outside table at byte "@ + dec(self.pos as nat));
            }
            return Err(at_byte_error(self.vtable + slot, text.as_str()));
        }
        Ok(Some(self.pos + offset))
    }

    pub fn u8(self, slot: usize, default: u8) -> (r: Result<u8, Error>)
        requires
            self.wf(),
        ensures
            agrees(r, u8_of(self.fb.data(), self@, slot as int, default)),
    {
        match self.field(slot, 1)? {
            None => Ok(default),
            Some(p) => Ok(self.fb.0[p]),
        }
    }

    pub fn u32(self, slot: usize, default: u32) -> (r: Result<u32, Error>)
        requires
            self.wf(),
        ensures
            agrees(r, u32_of(self.fb.data(), self@, slot as int, default)),
    {
        match self.field(slot, 4)? {
            None => Ok(default),
            Some(p) => self.fb.u32(p),
        }
    }

    pub fn vector(self, slot: usize, width: usize) -> (r: Result<Vector<'a>, Error>)
        requires
            self.wf(),
        ensures
            shows(r, vector_of(self.fb.data(), self@, slot as int, width as int)),
            r matches Ok(v) ==> v.wf() && v.fb == self.fb && v.width == width,
    {
        match self.field(slot, 4)? {
            None => {
                assert(0 * width == 0) by (nonlinear_arith);
                Ok(Vector { fb: self.fb, pos: self.pos, len: 0, width })
            },
            Some(field) => {
                let start: usize = self.fb.indirect(field)?;
                let len: usize = self.fb.u32(start)? as usize;
                match len.checked_mul(width) {
                    None => Err(at_byte_error(start, "vector size overflow")),
                    Some(extent) => {
                        let _checked: &[u8] = self.fb.bytes(start + 4, extent)?;
                        Ok(Vector { fb: self.fb, pos: start + 4, len, width })
                    },
                }
            },
        }
    }

    pub fn string(self, slot: usize) -> (r: Result<&'a [u8], Error>)
        requires
            self.wf(),
        ensures
            match (r, string_of(self.fb.data(), self@, slot as int)) {
                (Ok(a), Ok(b)) => a@ == b,
                (Err(e), Err(f)) => e@ == f,
                _ => false,
            },
    {
        let vector: Vector<'a> = self.vector(slot, 1)?;
        match self.field(slot, 4)? {
            None => {},
            Some(_) => {
                let terminator: &[u8] = self.fb.bytes(vector.pos + vector.len, 1)?;
                if terminator[0] != 0 {
                    return Err(at_byte_error(vector.pos, "string lacks terminator"));
                }
            },
        }
        let text: &'a [u8] = self.fb.bytes(vector.pos, vector.len)?;
        proof {
            if vector.len == 0 {
                assert(text@ =~= Seq::<u8>::empty());
            }
        }
        Ok(text)
    }
}

impl<'a> Vector<'a> {
    /// The elements lie within the file.
    pub open spec fn wf(&self) -> bool {
        self.pos + self.len * self.width <= self.fb.data().len()
    }

    pub fn element(self, index: usize) -> (r: Result<usize, Error>)
        requires
            self.wf(),
        ensures
            match (r, element_of(self@, index as int)) {
                (Ok(a), Ok(b)) => a == b && a + self.width <= self.fb.data().len(),
                (Err(e), Err(f)) => e@ == f,
                _ => false,
            },
    {
        if index >= self.len {
            let text: String = text_with2(
                "vector index ",
                index as u64,
                " exceeds length ",
                self.len as u64,
                "",
            );
            proof {
                reveal_strlit("");
                assert(text@ =~= "vector index "@ + dec(index as nat) + " exceeds length "@ + dec(
                    self.len as nat,
                ));
            }
            return Err(at_byte_error(self.pos, text.as_str()));
        }
        let total: usize = self.fb.0.len();
        proof {
            assert(index * self.width + self.width <= self.len * self.width) by (nonlinear_arith)
                requires
                    index + 1 <= self.len,
            ;
            assert(0 <= index * self.width) by (nonlinear_arith);
        }
        Ok(self.pos + index * self.width)
    }

    pub fn i32(self, index: usize) -> (r: Result<i32, Error>)
        requires
            self.wf(),
        ensures
            agrees(r, i32_of(self.fb.data(), self@, index as int)),
    {
        let p: usize = self.element(index)?;
        let x: u32 = self.fb.u32(p)?;
        Ok(to_signed32(x))
    }

    pub fn table(self, index: usize) -> (r: Result<Table<'a>, Error>)
        requires
            self.wf(),
        ensures
            shows(r, table_of(self.fb.data(), self@, index as int)),
            r matches Ok(t) ==> t.wf() && t.fb == self.fb,
    {
        let p: usize = self.element(index)?;
        let q: usize = self.fb.indirect(p)?;
        self.fb.table(q)
    }
}

} // verus!
