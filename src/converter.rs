//! A reusable output buffer with one entry point that takes the code-unit
//! width at run time.
use vstd::prelude::*;
use crate::utf8::{
    all_scalars, encode_ucs1, encode_ucs2, encode_ucs4, first_invalid, utf8_of_units, widen1,
    widen2,
};

verus! {

/// Why a conversion failed.
#[derive(Debug, Clone, Copy, PartialEq, Eq, Structural)]
pub enum EncodeError {
    /// A code unit that is not a Unicode scalar value.
    InvalidCodeUnit(u32),
    /// A width other than 1, 2 or 4.
    UnsupportedWidth(u8),
}

/// A converter owns one buffer that each conversion overwrites.
#[allow(non_camel_case_types)]
pub struct converter {
    buf: Vec<u8>,
}

impl View for converter {
    type V = Seq<u8>;

    closed spec fn view(&self) -> Seq<u8> {
        self.buf@
    }
}

impl converter {
    /// The output of the last conversion.
    pub fn as_bytes(&self) -> (r: &[u8])
        ensures
            r@ == self@,
    {
        self.buf.as_slice()
    }
}

/// Every unit fits in `width` bytes.
pub open spec fn units_fit(width: u8, s: Seq<u32>) -> bool {
    &&& width == 1 ==> forall|i: int| 0 <= i < s.len() ==> #[trigger] s[i] < 0x100
    &&& width == 2 ==> forall|i: int| 0 <= i < s.len() ==> #[trigger] s[i] < 0x10000
}

/// Creates a converter with an empty buffer.
pub fn questdb_pystr_converter_new() -> (c: converter)
    ensures
        c@ == Seq::<u8>::empty(),
{
    converter { buf: Vec::with_capacity(64) }
}

/// Releases a converter.
pub fn questdb_pystr_converter_free(c: converter) {
    let _ = c;
}

/// Narrows units below 0x100 to bytes.
fn narrow1(input: &[u32]) -> (r: Vec<u8>)
    requires
        forall|i: int| 0 <= i < input@.len() ==> #[trigger] input@[i] < 0x100,
    ensures
        widen1(r@) == input@,
{
    let mut r: Vec<u8> = Vec::with_capacity(input.len());
    let mut i: usize = 0;
    while i < input.len()
        invariant
            0 <= i <= input@.len(),
            forall|j: int| 0 <= j < input@.len() ==> #[trigger] input@[j] < 0x100,
            r@.len() == i,
            forall|j: int| 0 <= j < i ==> #[trigger] r@[j] as u32 == input@[j],
        decreases input@.len() - i,
    {
        r.push(input[i] as u8);
        i += 1;
    }
    assert(widen1(r@) =~= input@);
    r
}

/// Narrows units below 0x10000 to two bytes each.
fn narrow2(input: &[u32]) -> (r: Vec<u16>)
    requires
        forall|i: int| 0 <= i < input@.len() ==> #[trigger] input@[i] < 0x10000,
    ensures
        widen2(r@) == input@,
{
    let mut r: Vec<u16> = Vec::with_capacity(input.len());
    let mut i: usize = 0;
    while i < input.len()
        invariant
            0 <= i <= input@.len(),
            forall|j: int| 0 <= j < input@.len() ==> #[trigger] input@[j] < 0x10000,
            r@.len() == i,
            forall|j: int| 0 <= j < i ==> #[trigger] r@[j] as u32 == input@[j],
        decreases input@.len() - i,
    {
        r.push(input[i] as u16);
        i += 1;
    }
    assert(widen2(r@) =~= input@);
    r
}

/// Converts `input`, code units of `width` bytes each (1, 2 or 4) widened
/// to 32 bits, to UTF-8 in the converter's buffer. The buffer is emptied
/// first; it holds the output on success and nothing on failure.
pub fn questdb_pystr_to_convert(c: &mut converter, width: u8, input: &[u32]) -> (r: Result<
    (),
    EncodeError,
>)
    requires
        units_fit(width, input@),
    ensures
        !(width == 1 || width == 2 || width == 4) ==> {
            &&& r == Err::<(), EncodeError>(EncodeError::UnsupportedWidth(width))
            &&& final(c)@ == Seq::<u8>::empty()
        },
        (width == 1 || width == 2 || width == 4) ==> (r.is_ok() <==> all_scalars(input@)),
        (width == 1 || width == 2 || width == 4) ==> !(r matches Err(
            EncodeError::UnsupportedWidth(_),
        )),
        r.is_ok() ==> final(c)@ == utf8_of_units(input@),
        r matches Err(EncodeError::InvalidCodeUnit(u)) ==> {
            &&& first_invalid(input@, u)
            &&& final(c)@ == Seq::<u8>::empty()
        },
{
    c.buf.clear();
    if width == 1 {
        let narrow = narrow1(input);
        encode_ucs1(&mut c.buf, narrow.as_slice());
        assert(forall|i: int| 0 <= i < input@.len() ==> #[trigger] input@[i] < 0x100);
        assert(all_scalars(input@));
        assert(c.buf@ =~= utf8_of_units(input@));
        Ok(())
    } else if width == 2 {
        let narrow = narrow2(input);
        match encode_ucs2(&mut c.buf, narrow.as_slice()) {
            Ok(()) => {
                assert(c.buf@ =~= utf8_of_units(input@));
                Ok(())
            },
            Err(u) => Err(EncodeError::InvalidCodeUnit(u)),
        }
    } else if width == 4 {
        match encode_ucs4(&mut c.buf, input) {
            Ok(()) => {
                assert(c.buf@ =~= utf8_of_units(input@));
                Ok(())
            },
            Err(u) => Err(EncodeError::InvalidCodeUnit(u)),
        }
    } else {
        Err(EncodeError::UnsupportedWidth(width))
    }
}

} // verus!
