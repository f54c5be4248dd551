//! UTF-8 encoding of independent code units.
use vstd::prelude::*;

verus! {

/// A code unit that names a Unicode scalar value: at most 0x10FFFF and
/// outside the surrogate range 0xD800..=0xDFFF.
pub open spec fn is_scalar(c: u32) -> bool {
    c <= 0x10FFFF && !(0xD800 <= c && c <= 0xDFFF)
}

/// The standard UTF-8 form of one scalar value.
pub open spec fn utf8_of(c: u32) -> Seq<u8> {
    if c < 0x80 {
        seq![c as u8]
    } else if c < 0x800 {
        seq![(0xC0 + c / 64) as u8, (0x80 + c % 64) as u8]
    } else if c < 0x10000 {
        seq![(0xE0 + c / 4096) as u8, (0x80 + (c / 64) % 64) as u8, (0x80 + c % 64) as u8]
    } else {
        seq![
            (0xF0 + c / 262144) as u8,
            (0x80 + (c / 4096) % 64) as u8,
            (0x80 + (c / 64) % 64) as u8,
            (0x80 + c % 64) as u8,
        ]
    }
}

/// The UTF-8 bytes of a sequence of scalar values, one after the other.
pub open spec fn utf8_of_units(s: Seq<u32>) -> Seq<u8>
    decreases s.len(),
{
    if s.len() == 0 {
        Seq::empty()
    } else {
        utf8_of_units(s.drop_last()) + utf8_of(s.last())
    }
}

/// Every code unit of `s` is a scalar value.
pub open spec fn all_scalars(s: Seq<u32>) -> bool {
    forall|i: int| 0 <= i < s.len() ==> is_scalar(#[trigger] s[i])
}

/// `v` is the first code unit of `s` that is not a scalar value.
pub open spec fn first_invalid(s: Seq<u32>, v: u32) -> bool {
    exists|i: int|
        0 <= i < s.len() && !is_scalar(#[trigger] s[i]) && s[i] == v && all_scalars(s.take(i))
}

/// One-byte code units as 32-bit values.
pub open spec fn widen1(s: Seq<u8>) -> Seq<u32> {
    s.map_values(|b: u8| b as u32)
}

/// Two-byte code units as 32-bit values.
pub open spec fn widen2(s: Seq<u16>) -> Seq<u32> {
    s.map_values(|b: u16| b as u32)
}

/// The most UTF-8 bytes that one code unit of the given width can take.
pub open spec fn max_utf8_len(width: nat) -> nat {
    if width == 1 {
        2
    } else if width == 2 {
        3
    } else {
        4
    }
}

/// A scalar value takes one to four bytes; two at most below 0x100, three
/// at most below 0x10000.
pub proof fn lemma_utf8_of_len(c: u32)
    ensures
        1 <= utf8_of(c).len() <= 4,
        c < 0x100 ==> utf8_of(c).len() <= 2,
        c < 0x10000 ==> utf8_of(c).len() <= 3,
{
}

/// The UTF-8 form of a sequence of code units that each fit in `width`
/// bytes takes at most `max_utf8_len(width)` bytes per unit.
pub proof fn lemma_utf8_len_bound(s: Seq<u32>, width: nat)
    requires
        width == 1 ==> forall|i: int| 0 <= i < s.len() ==> #[trigger] s[i] < 0x100,
        width == 2 ==> forall|i: int| 0 <= i < s.len() ==> #[trigger] s[i] < 0x10000,
    ensures
        utf8_of_units(s).len() <= max_utf8_len(width) * s.len(),
    decreases s.len(),
{
    if s.len() > 0 {
        let t = s.drop_last();
        assert forall|i: int| 0 <= i < t.len() implies #[trigger] t[i] == s[i] by {}
        lemma_utf8_len_bound(t, width);
        lemma_utf8_of_len(s.last());
        assert(max_utf8_len(width) * s.len() == max_utf8_len(width) * t.len() + max_utf8_len(
            width,
        )) by (nonlinear_arith)
            requires
                s.len() == t.len() + 1,
        ;
    }
}

/// Appending one more code unit appends its UTF-8 form.
pub proof fn lemma_utf8_of_units_push(s: Seq<u32>, c: u32)
    ensures
        utf8_of_units(s.push(c)) == utf8_of_units(s) + utf8_of(c),
{
    assert(s.push(c).drop_last() =~= s);
}

/// Text made only of ASCII code units is its own UTF-8 form: copying it
/// gives what encoding it unit by unit gives.
pub proof fn lemma_ascii_identity(s: Seq<u8>)
    requires
        forall|i: int| 0 <= i < s.len() ==> #[trigger] s[i] < 0x80,
    ensures
        utf8_of_units(widen1(s)) == s,
    decreases s.len(),
{
    if s.len() > 0 {
        let t = s.drop_last();
        assert(widen1(s).drop_last() =~= widen1(t));
        lemma_ascii_identity(t);
        assert(utf8_of_units(widen1(s)) =~= s);
    }
}

/// How many bytes of `s` are 0x80 or above.
pub open spec fn high_count(s: Seq<u8>) -> nat
    decreases s.len(),
{
    if s.len() == 0 {
        0
    } else {
        high_count(s.drop_last()) + if s.last() >= 0x80 {
            1nat
        } else {
            0nat
        }
    }
}

/// Latin-1 text takes one UTF-8 byte per unit, and one more for each unit
/// at 0x80 or above.
pub proof fn lemma_ucs1_len(s: Seq<u8>)
    ensures
        utf8_of_units(widen1(s)).len() == s.len() + high_count(s),
    decreases s.len(),
{
    if s.len() > 0 {
        let t = s.drop_last();
        assert(widen1(s).drop_last() =~= widen1(t));
        lemma_ucs1_len(t);
    }
}

/// Appends the UTF-8 form of one scalar value.
pub fn push_scalar(dest: &mut Vec<u8>, c: u32)
    requires
        is_scalar(c),
    ensures
        final(dest)@ == old(dest)@ + utf8_of(c),
{
    if c < 0x80 {
        dest.push(c as u8);
    } else if c < 0x800 {
        dest.push((0xC0 + c / 64) as u8);
        dest.push((0x80 + c % 64) as u8);
    } else if c < 0x10000 {
        dest.push((0xE0 + c / 4096) as u8);
        dest.push((0x80 + (c / 64) % 64) as u8);
        dest.push((0x80 + c % 64) as u8);
    } else {
        dest.push((0xF0 + c / 262144) as u8);
        dest.push((0x80 + (c / 4096) % 64) as u8);
        dest.push((0x80 + (c / 64) % 64) as u8);
        dest.push((0x80 + c % 64) as u8);
    }
    assert(dest@ =~= old(dest)@ + utf8_of(c));
}

/// Appends the UTF-8 form of a Latin-1 (one byte per unit) string. Every
/// byte is a scalar value, so this cannot fail. Text that is all ASCII is
/// copied as it stands.
pub fn encode_ucs1(dest: &mut Vec<u8>, buf: &[u8])
    ensures
        final(dest)@ == old(dest)@ + utf8_of_units(widen1(buf@)),
{
    let mut ascii = true;
    let mut k: usize = 0;
    while k < buf.len()
        invariant
            0 <= k <= buf@.len(),
            ascii <==> forall|j: int| 0 <= j < k ==> #[trigger] buf@[j] < 0x80,
        decreases buf@.len() - k,
    {
        if buf[k] >= 0x80 {
            ascii = false;
        }
        k += 1;
    }
    if ascii {
        proof {
            lemma_ascii_identity(buf@);
        }
        let ghost before = dest@;
        dest.extend_from_slice(buf);
        assert(dest@ =~= before + buf@);
        return;
    }
    let mut i: usize = 0;
    while i < buf.len()
        invariant
            0 <= i <= buf@.len(),
            dest@ == old(dest)@ + utf8_of_units(widen1(buf@.take(i as int))),
        decreases buf@.len() - i,
    {
        let c = buf[i] as u32;
        push_scalar(dest, c);
        proof {
            assert(widen1(buf@.take(i + 1)) =~= widen1(buf@.take(i as int)).push(c));
            lemma_utf8_of_units_push(widen1(buf@.take(i as int)), c);
        }
        i += 1;
    }
    assert(buf@.take(buf@.len() as int) =~= buf@);
}

/// Appends the UTF-8 form of a two-bytes-per-unit string, each unit taken
/// as a scalar value of its own. On the first unit that is not a scalar
/// value nothing is left appended and that unit is returned.
pub fn encode_ucs2(dest: &mut Vec<u8>, buf: &[u16]) -> (r: Result<(), u32>)
    ensures
        r.is_ok() <==> all_scalars(widen2(buf@)),
        r.is_ok() ==> final(dest)@ == old(dest)@ + utf8_of_units(widen2(buf@)),
        r matches Err(v) ==> final(dest)@ == old(dest)@ && first_invalid(widen2(buf@), v),
{
    let start = dest.len();
    let mut i: usize = 0;
    while i < buf.len()
        invariant
            0 <= i <= buf@.len(),
            start == old(dest)@.len(),
            all_scalars(widen2(buf@.take(i as int))),
            dest@ == old(dest)@ + utf8_of_units(widen2(buf@.take(i as int))),
        decreases buf@.len() - i,
    {
        let c = buf[i] as u32;
        assert(widen2(buf@.take(i + 1)) =~= widen2(buf@.take(i as int)).push(c));
        if !(c < 0xD800 || 0xDFFF < c) {
            dest.truncate(start);
            assert(dest@ =~= old(dest)@);
            assert(widen2(buf@).take(i as int) =~= widen2(buf@.take(i as int)));
            assert(widen2(buf@)[i as int] == c);
            return Err(c);
        }
        push_scalar(dest, c);
        proof {
            lemma_utf8_of_units_push(widen2(buf@.take(i as int)), c);
        }
        i += 1;
    }
    assert(buf@.take(buf@.len() as int) =~= buf@);
    Ok(())
}

/// Appends the UTF-8 form of a four-bytes-per-unit string, each unit taken
/// as a scalar value of its own. On the first unit that is not a scalar
/// value nothing is left appended and that unit is returned.
pub fn encode_ucs4(dest: &mut Vec<u8>, buf: &[u32]) -> (r: Result<(), u32>)
    ensures
        r.is_ok() <==> all_scalars(buf@),
        r.is_ok() ==> final(dest)@ == old(dest)@ + utf8_of_units(buf@),
        r matches Err(v) ==> final(dest)@ == old(dest)@ && first_invalid(buf@, v),
{
    let start = dest.len();
    let mut i: usize = 0;
    while i < buf.len()
        invariant
            0 <= i <= buf@.len(),
            start == old(dest)@.len(),
            all_scalars(buf@.take(i as int)),
            dest@ == old(dest)@ + utf8_of_units(buf@.take(i as int)),
        decreases buf@.len() - i,
    {
        let c = buf[i];
        assert(buf@.take(i + 1) =~= buf@.take(i as int).push(c));
        if c > 0x10FFFF || (0xD800 <= c && c <= 0xDFFF) {
            dest.truncate(start);
            assert(dest@ =~= old(dest)@);
            return Err(c);
        }
        push_scalar(dest, c);
        proof {
            lemma_utf8_of_units_push(buf@.take(i as int), c);
        }
        i += 1;
    }
    assert(buf@.take(buf@.len() as int) =~= buf@);
    Ok(())
}

} // verus!
