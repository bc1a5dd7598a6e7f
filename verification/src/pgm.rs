//! The binary portable gray map layout of a mask: a short text header that
//! names the dimensions in decimal, followed by the raw coverage bytes.
use crate::mask::Mask;
use crate::mask::MaskView;
use vstd::prelude::*;

verus! {

/// Whether `b` is an ASCII decimal digit.
pub open spec fn is_digit(b: u8) -> bool {
    48 <= b <= 57
}

/// The ASCII digit for `d`, a value below ten.
pub open spec fn digit(d: nat) -> u8 {
    (48 + d) as u8
}

/// The decimal numeral of `n`: most significant digit first, and no leading
/// zero except for zero itself.
pub open spec fn decimal(n: nat) -> Seq<u8>
    decreases n,
{
    if n < 10 {
        seq![digit(n)]
    } else {
        decimal(n / 10).push(digit(n % 10))
    }
}

/// The magic number of a binary gray map, the letter `P` and the digit `5`,
/// and the line break after it.
pub open spec fn pgm_magic() -> Seq<u8> {
    seq![80u8, 53u8, 10u8]
}

/// The end of the header: a line of its own that gives 255 as the largest
/// gray value.
pub open spec fn pgm_trailer() -> Seq<u8> {
    seq![10u8, 50u8, 53u8, 53u8, 10u8]
}

/// The header of a gray map of the given dimensions: the magic number, then
/// on one line the width and the height in decimal with a blank between them,
/// then the largest gray value.
pub open spec fn pgm_header(width: u32, height: u32) -> Seq<u8> {
    pgm_magic() + decimal(width as nat) + seq![32u8] + decimal(height as nat) + pgm_trailer()
}

/// A mask as a gray map: the header of its dimensions, then its bytes.
pub open spec fn pgm_bytes(m: MaskView) -> Seq<u8> {
    pgm_header(m.width, m.height) + m.pixels
}

/// Whether `bytes` begin with the header of a `width` by `height` gray map.
pub open spec fn has_pgm_header(bytes: Seq<u8>, width: u32, height: u32) -> bool {
    pgm_header(width, height).is_prefix_of(bytes)
}

/// The dimensions that the header at the start of `bytes` names, if `bytes`
/// begin with a header at all.
pub open spec fn pgm_dimensions(bytes: Seq<u8>) -> Option<(u32, u32)> {
    if exists|w: u32, h: u32| has_pgm_header(bytes, w, h) {
        Some(choose|d: (u32, u32)| has_pgm_header(bytes, d.0, d.1))
    } else {
        None
    }
}

/// Whether the numeral of `n` stands in `bytes` from `start` to `end` and no
/// digit follows it.
pub open spec fn decimal_at(bytes: Seq<u8>, start: int, n: nat, end: int) -> bool {
    &&& 0 <= start <= end <= bytes.len()
    &&& bytes.subrange(start, end) == decimal(n)
    &&& (end == bytes.len() || !is_digit(bytes[end]))
}

/// The index after the numeral of `n` where that numeral begins at `start`.
pub open spec fn after_numeral(start: int, n: nat) -> int {
    start + decimal(n).len()
}

/// A numeral is never empty and holds digits only; it starts with a zero
/// only if it is the numeral of zero.
pub proof fn lemma_decimal_digits(n: nat)
    ensures
        decimal(n).len() >= 1,
        forall|i: int| 0 <= i < decimal(n).len() ==> is_digit(#[trigger] decimal(n)[i]),
        decimal(n)[0] == 48u8 <==> n == 0,
    decreases n,
{
    if n >= 10 {
        lemma_decimal_digits(n / 10);
    }
}

/// If the numeral of `a` is a prefix of the numeral of `b`, then `a <= b`, and
/// the two numbers are equal if the numerals are equally long.
pub proof fn lemma_decimal_prefix(a: nat, b: nat)
    requires
        decimal(a).is_prefix_of(decimal(b)),
    ensures
        a <= b,
        decimal(a).len() == decimal(b).len() ==> a == b,
    decreases b,
{
    lemma_decimal_digits(a);
    lemma_decimal_digits(b);
    let sa = decimal(a);
    let sb = decimal(b);
    if sa.len() == sb.len() {
        lemma_decimal_injective(a, b);
    } else {
        assert(sb.len() >= 2);
        assert(b >= 10);
        assert(sb.drop_last() =~= decimal(b / 10));
        assert(sa.is_prefix_of(decimal(b / 10)));
        lemma_decimal_prefix(a, b / 10);
    }
}

/// Two numbers with one numeral are equal.
pub proof fn lemma_decimal_injective(a: nat, b: nat)
    requires
        decimal(a) =~= decimal(b),
    ensures
        a == b,
    decreases a,
{
    lemma_decimal_digits(a);
    lemma_decimal_digits(b);
    if a < 10 {
        if b >= 10 {
            lemma_decimal_digits(b / 10);
        }
    } else {
        if b < 10 {
            lemma_decimal_digits(a / 10);
        } else {
            let sa = decimal(a);
            let sb = decimal(b);
            assert(sa.drop_last() =~= decimal(a / 10));
            assert(sb.drop_last() =~= decimal(b / 10));
            assert(sa.last() == digit(a % 10));
            assert(sb.last() == digit(b % 10));
            lemma_decimal_injective(a / 10, b / 10);
        }
    }
}

/// At most one numeral stands at a given place of a byte string.
pub proof fn lemma_decimal_at_unique(bytes: Seq<u8>, start: int, n1: nat, end1: int, n2: nat, end2: int)
    requires
        decimal_at(bytes, start, n1, end1),
        decimal_at(bytes, start, n2, end2),
    ensures
        n1 == n2,
        end1 == end2,
{
    lemma_decimal_digits(n1);
    lemma_decimal_digits(n2);
    let s1 = bytes.subrange(start, end1);
    let s2 = bytes.subrange(start, end2);
    if end1 < end2 {
        assert(s2[end1 - start] == bytes[end1]);
        assert(false);
    }
    if end2 < end1 {
        assert(s1[end2 - start] == bytes[end2]);
        assert(false);
    }
    lemma_decimal_injective(n1, n2);
}

/// At most one pair of dimensions has its header at the start of `bytes`.
pub proof fn lemma_pgm_header_unique(bytes: Seq<u8>, w1: u32, h1: u32, w2: u32, h2: u32)
    requires
        has_pgm_header(bytes, w1, h1),
        has_pgm_header(bytes, w2, h2),
    ensures
        w1 == w2,
        h1 == h2,
{
    lemma_header_parts(bytes, w1, h1);
    lemma_header_parts(bytes, w2, h2);
    let e1 = after_numeral(3, w1 as nat);
    let e2 = after_numeral(3, w2 as nat);
    lemma_decimal_at_unique(bytes, 3, w1 as nat, e1, w2 as nat, e2);
    let f1 = after_numeral(e1 + 1, h1 as nat);
    let f2 = after_numeral(e2 + 1, h2 as nat);
    lemma_decimal_at_unique(bytes, e1 + 1, h1 as nat, f1, h2 as nat, f2);
}

/// Where the parts of a header stand in a byte string that begins with it.
pub proof fn lemma_header_parts(bytes: Seq<u8>, width: u32, height: u32)
    requires
        has_pgm_header(bytes, width, height),
    ensures
        bytes.len() >= 3 && bytes[0] == 80u8 && bytes[1] == 53u8 && bytes[2] == 10u8,
        ({
            let e = after_numeral(3, width as nat);
            let f = after_numeral(e + 1, height as nat);
            &&& decimal_at(bytes, 3, width as nat, e)
            &&& bytes[e] == 32u8
            &&& decimal_at(bytes, e + 1, height as nat, f)
            &&& f + 5 <= bytes.len()
            &&& bytes.subrange(f, f + 5) == pgm_trailer()
        }),
{
    let dw = decimal(width as nat);
    let dh = decimal(height as nat);
    let hdr = pgm_header(width, height);
    let e = after_numeral(3, width as nat);
    let f = after_numeral(e + 1, height as nat);
    assert(hdr.len() == f + 5);
    assert forall|i: int| 0 <= i < hdr.len() implies bytes[i] == hdr[i] by {
        assert(bytes.subrange(0, hdr.len() as int)[i] == hdr[i]);
    }
    assert(bytes[0] == hdr[0]);
    assert(bytes[1] == hdr[1]);
    assert(bytes[2] == hdr[2]);
    assert(bytes[e] == hdr[e]);
    assert(bytes[f] == hdr[f]);
    assert(bytes.subrange(3, e) =~= dw) by {
        assert forall|i: int| 0 <= i < dw.len() implies bytes.subrange(3, e)[i] == dw[i] by {
            assert(hdr[3 + i] == dw[i]);
        }
    }
    assert(bytes.subrange(e + 1, f) =~= dh) by {
        assert forall|i: int| 0 <= i < dh.len() implies bytes.subrange(e + 1, f)[i] == dh[i] by {
            assert(hdr[e + 1 + i] == dh[i]);
        }
    }
    assert(bytes.subrange(f, f + 5) =~= pgm_trailer()) by {
        assert forall|i: int| 0 <= i < 5 implies bytes.subrange(f, f + 5)[i] == pgm_trailer()[i] by {
            assert(hdr[f + i] == pgm_trailer()[i]);
        }
    }
}

/// A byte string whose parts stand as a header's parts do begins with that header.
pub proof fn lemma_header_from_parts(bytes: Seq<u8>, width: u32, height: u32, e: int, f: int)
    requires
        bytes.len() >= 3 && bytes[0] == 80u8 && bytes[1] == 53u8 && bytes[2] == 10u8,
        decimal_at(bytes, 3, width as nat, e),
        e < bytes.len() && bytes[e] == 32u8,
        decimal_at(bytes, e + 1, height as nat, f),
        f + 5 <= bytes.len(),
        bytes.subrange(f, f + 5) == pgm_trailer(),
    ensures
        has_pgm_header(bytes, width, height),
{
    let dw = decimal(width as nat);
    let dh = decimal(height as nat);
    let hdr = pgm_header(width, height);
    assert(hdr.len() == f + 5);
    assert forall|i: int| 0 <= i < hdr.len() implies bytes[i] == hdr[i] by {
        if 3 <= i < e {
            assert(bytes.subrange(3, e)[i - 3] == bytes[i]);
        } else if e + 1 <= i < f {
            assert(bytes.subrange(e + 1, f)[i - e - 1] == bytes[i]);
        } else if f <= i {
            assert(bytes.subrange(f, f + 5)[i - f] == bytes[i]);
        }
    }
    assert(bytes.subrange(0, hdr.len() as int) =~= hdr);
}

/// Reading the header of a written mask gives back the dimensions that the
/// mask was made with.
pub proof fn lemma_pgm_round_trip(m: MaskView)
    ensures
        pgm_dimensions(pgm_bytes(m)) == Some((m.width, m.height)),
{
    let bytes = pgm_bytes(m);
    let hdr = pgm_header(m.width, m.height);
    assert(bytes.subrange(0, hdr.len() as int) =~= hdr);
    assert(has_pgm_header(bytes, m.width, m.height));
    lemma_pgm_dimensions(bytes, m.width, m.height);
}

/// The dimensions of a byte string that begins with a header are those of
/// that header.
pub proof fn lemma_pgm_dimensions(bytes: Seq<u8>, width: u32, height: u32)
    requires
        has_pgm_header(bytes, width, height),
    ensures
        pgm_dimensions(bytes) == Some((width, height)),
{
    let pair = (width, height);
    assert(has_pgm_header(bytes, pair.0, pair.1));
    let d = choose|d: (u32, u32)| has_pgm_header(bytes, d.0, d.1);
    lemma_pgm_header_unique(bytes, d.0, d.1, width, height);
}

/// Appends the decimal numeral of `n` to `out`.
pub fn write_decimal(out: &mut Vec<u8>, n: u32)
    ensures
        final(out)@ == old(out)@ + decimal(n as nat),
    decreases n,
{
    if n >= 10 {
        write_decimal(out, n / 10);
    }
    out.push(48u8 + (n % 10) as u8);
    assert(out@ =~= old(out)@ + decimal(n as nat));
}

/// Appends the header of a `width` by `height` gray map to `out`.
pub fn write_pgm_header(out: &mut Vec<u8>, width: u32, height: u32)
    ensures
        final(out)@ == old(out)@ + pgm_header(width, height),
{
    out.push(80u8);
    out.push(53u8);
    out.push(10u8);
    write_decimal(out, width);
    out.push(32u8);
    write_decimal(out, height);
    out.push(10u8);
    out.push(50u8);
    out.push(53u8);
    out.push(53u8);
    out.push(10u8);
    assert(out@ =~= old(out)@ + pgm_header(width, height));
}

impl Mask {
    /// Writes the mask to `out` as a binary portable gray map: the header
    /// that names its width and height, then the coverage bytes row by row.
    pub fn write_pgm(&self, out: &mut Vec<u8>)
        ensures
            final(out)@ == old(out)@ + pgm_bytes(self@),
    {
        write_pgm_header(out, self.width(), self.height());
        out.extend_from_slice(self.pixels());
        assert(out@ =~= old(out)@ + pgm_bytes(self@));
    }
}

/// Reads the decimal numeral that stands in `bytes` at `start`: its value and
/// the index after its last digit. There is none if no digit stands there, if
/// a zero is followed by another digit, or if the value is beyond `u32`.
pub fn parse_decimal(bytes: &[u8], start: usize) -> (r: Option<(u32, usize)>)
    ensures
        match r {
            Some((n, end)) => decimal_at(bytes@, start as int, n as nat, end as int),
            None => forall|n: u32, end: int| !decimal_at(bytes@, start as int, n as nat, end),
        },
{
    let len = bytes.len();
    if start > len {
        return None;
    }
    let mut i = start;
    let mut value: u32 = 0;
    while i < len && 48 <= bytes[i] && bytes[i] <= 57
        invariant
            start <= i <= len == bytes@.len(),
            forall|j: int| start <= j < i ==> is_digit(#[trigger] bytes@[j]),
            i > start ==> bytes@.subrange(start as int, i as int) == decimal(value as nat),
            i == start ==> value == 0,
        decreases len - i,
    {
        let d: u32 = (bytes[i] - 48) as u32;
        if i > start && value == 0 {
            proof {
                assert(bytes@.subrange(start as int, i as int)[0] == bytes@[start as int]);
                lemma_no_numeral_after_zero(bytes@, start as int, i as int + 1);
            }
            return None;
        }
        if value > (u32::MAX - d) / 10 {
            proof {
                lemma_decimal_push(bytes@, start as int, i as int, value as nat);
                lemma_no_numeral_beyond(
                    bytes@,
                    start as int,
                    i as int + 1,
                    value as nat * 10 + d as nat,
                );
            }
            return None;
        }
        proof {
            lemma_decimal_push(bytes@, start as int, i as int, value as nat);
        }
        value = value * 10 + d;
        i += 1;
    }
    if i == start {
        proof {
            assert forall|n: u32, end: int| !decimal_at(bytes@, start as int, n as nat, end) by {
                lemma_decimal_digits(n as nat);
                if decimal_at(bytes@, start as int, n as nat, end) {
                    assert(bytes@.subrange(start as int, end)[0] == bytes@[start as int]);
                }
            }
        }
        return None;
    }
    Some((value, i))
}

/// One more digit behind the numeral of `value` makes the numeral of ten
/// times `value` plus that digit, unless `value` is zero.
proof fn lemma_decimal_push(bytes: Seq<u8>, start: int, i: int, value: nat)
    requires
        0 <= start <= i < bytes.len(),
        is_digit(bytes[i]),
        i > start ==> bytes.subrange(start, i) == decimal(value) && value > 0,
        i == start ==> value == 0,
    ensures
        bytes.subrange(start, i + 1) == decimal(value * 10 + (bytes[i] - 48) as nat),
{
    let d = (bytes[i] - 48) as nat;
    let next = value * 10 + d;
    if i == start {
        assert(bytes.subrange(start, i + 1) =~= seq![bytes[i]]);
    } else {
        assert(next / 10 == value && next % 10 == d);
        assert(bytes.subrange(start, i + 1) =~= bytes.subrange(start, i).push(bytes[i]));
    }
}

/// No numeral stands where a zero is followed by another digit.
proof fn lemma_no_numeral_after_zero(bytes: Seq<u8>, start: int, seen: int)
    requires
        0 <= start && start + 2 <= seen <= bytes.len(),
        forall|j: int| start <= j < seen ==> is_digit(#[trigger] bytes[j]),
        bytes[start] == 48u8,
    ensures
        forall|n: u32, end: int| !decimal_at(bytes, start, n as nat, end),
{
    assert forall|n: u32, end: int| !decimal_at(bytes, start, n as nat, end) by {
        if decimal_at(bytes, start, n as nat, end) {
            lemma_decimal_digits(n as nat);
            assert(end >= seen);
            assert(bytes.subrange(start, end)[0] == bytes[start]);
            assert(n == 0);
        }
    }
}

/// No numeral of a `u32` stands where the digits seen so far already spell a
/// number beyond `u32`.
proof fn lemma_no_numeral_beyond(bytes: Seq<u8>, start: int, seen: int, value: nat)
    requires
        0 <= start < seen <= bytes.len(),
        forall|j: int| start <= j < seen ==> is_digit(#[trigger] bytes[j]),
        bytes.subrange(start, seen) == decimal(value),
        value > u32::MAX,
    ensures
        forall|n: u32, end: int| !decimal_at(bytes, start, n as nat, end),
{
    assert forall|n: u32, end: int| !decimal_at(bytes, start, n as nat, end) by {
        if decimal_at(bytes, start, n as nat, end) {
            assert(end >= seen);
            let whole = bytes.subrange(start, end);
            assert(whole.subrange(0, seen - start) =~= bytes.subrange(start, seen));
            lemma_decimal_prefix(value, n as nat);
        }
    }
}

/// Reads the header at the start of `bytes`: the dimensions that it names,
/// or nothing where `bytes` do not begin with a header.
pub fn parse_pgm_header(bytes: &[u8]) -> (r: Option<(u32, u32)>)
    ensures
        r == pgm_dimensions(bytes@),
{
    let len = bytes.len();
    if len < 3 || bytes[0] != 80 || bytes[1] != 53 || bytes[2] != 10 {
        proof {
            assert forall|w: u32, h: u32| !has_pgm_header(bytes@, w, h) by {
                if has_pgm_header(bytes@, w, h) {
                    lemma_header_parts(bytes@, w, h);
                }
            }
        }
        return None;
    }
    let (width, e) = match parse_decimal(bytes, 3) {
        Some(found) => found,
        None => {
            proof {
                assert forall|w: u32, h: u32| !has_pgm_header(bytes@, w, h) by {
                    if has_pgm_header(bytes@, w, h) {
                        lemma_header_parts(bytes@, w, h);
                    }
                }
            }
            return None;
        },
    };
    if e >= len || bytes[e] != 32 {
        proof {
            assert forall|w: u32, h: u32| !has_pgm_header(bytes@, w, h) by {
                if has_pgm_header(bytes@, w, h) {
                    lemma_header_parts(bytes@, w, h);
                    let e2 = after_numeral(3, w as nat);
                    lemma_decimal_at_unique(bytes@, 3, width as nat, e as int, w as nat, e2);
                }
            }
        }
        return None;
    }
    let (height, f) = match parse_decimal(bytes, e + 1) {
        Some(found) => found,
        None => {
            proof {
                assert forall|w: u32, h: u32| !has_pgm_header(bytes@, w, h) by {
                    if has_pgm_header(bytes@, w, h) {
                        lemma_header_parts(bytes@, w, h);
                        let e2 = after_numeral(3, w as nat);
                        lemma_decimal_at_unique(bytes@, 3, width as nat, e as int, w as nat, e2);
                    }
                }
            }
            return None;
        },
    };
    if len - f < 5 || bytes[f] != 10 || bytes[f + 1] != 50 || bytes[f + 2] != 53 || bytes[f + 3]
        != 53 || bytes[f + 4] != 10 {
        proof {
            assert forall|w: u32, h: u32| !has_pgm_header(bytes@, w, h) by {
                if has_pgm_header(bytes@, w, h) {
                    lemma_header_parts(bytes@, w, h);
                    let e2 = after_numeral(3, w as nat);
                    lemma_decimal_at_unique(bytes@, 3, width as nat, e as int, w as nat, e2);
                    let f2 = after_numeral(e2 + 1, h as nat);
                    lemma_decimal_at_unique(
                        bytes@,
                        e + 1,
                        height as nat,
                        f as int,
                        h as nat,
                        f2,
                    );
                    let tail = bytes@.subrange(f as int, f + 5);
                    assert(tail[0] == bytes@[f as int]);
                    assert(tail[1] == bytes@[f + 1]);
                    assert(tail[2] == bytes@[f + 2]);
                    assert(tail[3] == bytes@[f + 3]);
                    assert(tail[4] == bytes@[f + 4]);
                }
            }
        }
        return None;
    }
    proof {
        assert(bytes@.subrange(f as int, f + 5) =~= pgm_trailer());
        lemma_header_from_parts(bytes@, width, height, e as int, f as int);
        lemma_pgm_dimensions(bytes@, width, height);
    }
    Some((width, height))
}

} // verus!
