//! The binary pixel-map image format (magic `P6`).
//!
//! The renderer's framebuffer holds linear radiance and its gamma encoding
//! is floating point, so both live with the renderer; this module frames
//! already-encoded channel bytes into a complete file and reads such a
//! file back. The framebuffer keeps its first row at the bottom of the
//! picture while the file wants the top row first, so the writer emits the
//! rows last to first and the reader undoes that.

use vstd::prelude::*;

verus! {

/// One encoded pixel: a red, a green and a blue byte.
#[verifier::ext_equal]
#[derive(Clone, Copy, Debug, PartialEq, Eq, Structural)]
pub struct Rgb {
    pub r: u8,
    pub g: u8,
    pub b: u8,
}

/// An ASCII decimal digit.
pub open spec fn is_digit(b: u8) -> bool {
    48 <= b <= 57
}

/// The decimal numeral of `n`, most significant digit first, without
/// leading zeros, as ASCII bytes.
pub open spec fn decimal_bytes(n: nat) -> Seq<u8>
    decreases n,
{
    if n < 10 {
        seq![(48 + n) as u8]
    } else {
        decimal_bytes(n / 10) + seq![(48 + n % 10) as u8]
    }
}

/// The number a run of ASCII digits denotes.
pub open spec fn digits_value(s: Seq<u8>) -> nat
    decreases s.len(),
{
    if s.len() == 0 {
        0
    } else {
        (digits_value(s.drop_last()) * 10 + (s.last() - 48)) as nat
    }
}

/// The file's header: the magic, the width, the height and the largest
/// channel value, newline-separated.
pub open spec fn header_bytes(w: nat, h: nat) -> Seq<u8> {
    seq![80u8, 54u8, 10u8] + decimal_bytes(w) + seq![10u8] + decimal_bytes(h) + seq![
        10u8,
        50u8,
        53u8,
        53u8,
        10u8,
    ]
}

/// A row's bytes: three per pixel, left to right.
pub open spec fn row_bytes(row: Seq<Rgb>) -> Seq<u8>
    decreases row.len(),
{
    if row.len() == 0 {
        Seq::empty()
    } else {
        seq![row[0].r, row[0].g, row[0].b] + row_bytes(row.drop_first())
    }
}

/// The file's payload: the rows from the last to the first.
pub open spec fn payload_bytes(rows: Seq<Seq<Rgb>>) -> Seq<u8>
    decreases rows.len(),
{
    if rows.len() == 0 {
        Seq::empty()
    } else {
        row_bytes(rows.last()) + payload_bytes(rows.drop_last())
    }
}

/// Every row has width `w`.
pub open spec fn uniform_width(rows: Seq<Seq<Rgb>>, w: nat) -> bool {
    forall|i: int| 0 <= i < rows.len() ==> rows[i].len() == w
}

/// A framebuffer this format can carry: at least one row, all rows alike.
pub open spec fn valid_image(rows: Seq<Seq<Rgb>>) -> bool {
    rows.len() >= 1 && uniform_width(rows, rows[0].len())
}

/// The complete file for a framebuffer.
pub open spec fn image_bytes(rows: Seq<Seq<Rgb>>) -> Seq<u8> {
    header_bytes(rows[0].len(), rows.len()) + payload_bytes(rows)
}

/// The rows of a framebuffer, as sequences.
pub open spec fn pixel_view(rows: Seq<Vec<Rgb>>) -> Seq<Seq<Rgb>> {
    rows.map_values(|r: Vec<Rgb>| r@)
}

/// Appends the decimal numeral of `n`.
fn push_decimal(out: &mut Vec<u8>, n: u64)
    ensures
        final(out)@ == old(out)@ + decimal_bytes(n as nat),
    decreases n,
{
    if n < 10 {
        out.push(48 + (n as u8));
        proof {
            assert(final(out)@ =~= old(out)@ + decimal_bytes(n as nat));
        }
    } else {
        push_decimal(out, n / 10);
        out.push(48 + ((n % 10) as u8));
        proof {
            assert(final(out)@ =~= old(out)@ + decimal_bytes(n as nat));
        }
    }
}

/// Basic shape of a decimal numeral: nonempty, digits throughout, and a
/// leading zero only for zero itself.
proof fn lemma_decimal_props(n: nat)
    ensures
        decimal_bytes(n).len() >= 1,
        forall|q: int| 0 <= q < decimal_bytes(n).len() ==> is_digit(#[trigger] decimal_bytes(n)[q]),
        n >= 1 ==> decimal_bytes(n)[0] != 48,
        n >= 10 ==> decimal_bytes(n).len() >= 2,
    decreases n,
{
    if n >= 10 {
        lemma_decimal_props(n / 10);
        let d = decimal_bytes(n / 10);
        let s = decimal_bytes(n);
        assert(s == d + seq![(48 + n % 10) as u8]);
        assert(s[0] == d[0]);
        assert forall|q: int| 0 <= q < s.len() implies is_digit(#[trigger] s[q]) by {
            if q < d.len() {
                assert(s[q] == d[q]);
            } else {
                assert(s[q] == (48 + n % 10) as u8);
            }
        }
    }
}

/// Reading a numeral back gives the number it was written from.
proof fn lemma_value_of_decimal(n: nat)
    ensures
        digits_value(decimal_bytes(n)) == n,
    decreases n,
{
    if n < 10 {
        let s = decimal_bytes(n);
        assert(s =~= seq![(48 + n) as u8]);
        assert(s.drop_last() =~= Seq::<u8>::empty());
        assert(digits_value(Seq::<u8>::empty()) == 0);
        assert(digits_value(s) == digits_value(s.drop_last()) * 10 + (s.last() - 48));
        assert(s.last() == (48 + n) as u8);
        assert(s.last() - 48 == n);
    } else {
        lemma_value_of_decimal(n / 10);
        let s = decimal_bytes(n);
        let d = decimal_bytes(n / 10);
        assert(s == d + seq![(48 + n % 10) as u8]);
        assert(s.drop_last() =~= d);
        assert(s.last() == (48 + n % 10) as u8);
    }
}

/// A nonempty digit run without a leading zero is the numeral of its own
/// value, which is positive unless the run is the single digit zero.
proof fn lemma_canonical_digits(s: Seq<u8>)
    requires
        s.len() >= 1,
        forall|q: int| 0 <= q < s.len() ==> is_digit(#[trigger] s[q]),
        s[0] != 48,
    ensures
        digits_value(s) >= 1,
        s.len() >= 2 ==> digits_value(s) >= 10,
        decimal_bytes(digits_value(s)) == s,
    decreases s.len(),
{
    if s.len() == 1 {
        assert(s.drop_last() =~= Seq::<u8>::empty());
        assert(digits_value(Seq::<u8>::empty()) == 0);
        let v = digits_value(s);
        assert(s.last() == s[0]);
        assert(v == s[0] - 48);
        assert(decimal_bytes(v) =~= s);
    } else {
        let t = s.drop_last();
        assert(t[0] == s[0]);
        lemma_canonical_digits(t);
        let vt = digits_value(t);
        let d = (s.last() - 48) as nat;
        assert(is_digit(s.last()));
        let v = digits_value(s);
        assert(v == vt * 10 + d);
        assert(vt >= 1);
        assert(v >= 10);
        assert(v / 10 == vt && v % 10 == d);
        assert(decimal_bytes(v) == decimal_bytes(vt) + seq![(48 + d) as u8]);
        assert(decimal_bytes(v) =~= s);
    }
}

/// A run's prefix never denotes more than the whole run.
proof fn lemma_prefix_value_le(s: Seq<u8>, m: int)
    requires
        0 <= m <= s.len(),
        forall|q: int| 0 <= q < s.len() ==> is_digit(#[trigger] s[q]),
    ensures
        digits_value(s.subrange(0, m)) <= digits_value(s),
    decreases s.len() - m,
{
    if m == s.len() {
        assert(s.subrange(0, m) =~= s);
    } else {
        lemma_prefix_value_le(s, m + 1);
        let a = s.subrange(0, m);
        let b = s.subrange(0, m + 1);
        assert(b.drop_last() =~= a);
        assert(digits_value(b) == digits_value(a) * 10 + (b.last() - 48));
        assert(is_digit(s[m]));
        assert(b.last() == s[m]);
    }
}

/// Two maximal digit runs from the same place end at the same place.
proof fn lemma_run_unique(bytes: Seq<u8>, start: int, e1: int, e2: int)
    requires
        start <= e1 <= bytes.len(),
        start <= e2 <= bytes.len(),
        forall|q: int| start <= q < e1 ==> is_digit(#[trigger] bytes[q]),
        forall|q: int| start <= q < e2 ==> is_digit(#[trigger] bytes[q]),
        e1 == bytes.len() || !is_digit(bytes[e1]),
        e2 == bytes.len() || !is_digit(bytes[e2]),
    ensures
        e1 == e2,
{
    if e1 < e2 {
        assert(is_digit(bytes[e1]));
        assert(false);
    }
    if e2 < e1 {
        assert(is_digit(bytes[e2]));
        assert(false);
    }
}

/// There is a numeral of `n` at `start`: the numeral's bytes, then either
/// the end of the input or something that is not a digit.
pub open spec fn digit_run_at(bytes: Seq<u8>, start: int, n: nat) -> bool {
    &&& start + decimal_bytes(n).len() <= bytes.len()
    &&& bytes.subrange(start, start + decimal_bytes(n).len()) == decimal_bytes(n)
    &&& (start + decimal_bytes(n).len() == bytes.len() || !is_digit(
        bytes[start + decimal_bytes(n).len()],
    ))
}

/// Reads the maximal digit run starting at `start` as a number, rejecting
/// an empty run, a leading zero and a value beyond `usize`.
fn parse_number(bytes: &Vec<u8>, start: usize) -> (r: Option<(usize, usize)>)
    requires
        start <= bytes@.len(),
    ensures
        match r {
            Some(p) => {
                &&& start < p.1 <= bytes@.len()
                &&& bytes@.subrange(start as int, p.1 as int) == decimal_bytes(p.0 as nat)
                &&& (p.1 == bytes@.len() || !is_digit(bytes@[p.1 as int]))
            },
            None => forall|n: nat| n <= usize::MAX ==> !digit_run_at(bytes@, start as int, n),
        },
{
    let len = bytes.len();
    if start >= len {
        proof {
            assert forall|n: nat| n <= usize::MAX implies !digit_run_at(
                bytes@,
                start as int,
                n,
            ) by {
                lemma_decimal_props(n);
            }
        }
        return None;
    }
    let b0 = bytes[start];
    if !(48 <= b0 && b0 <= 57) {
        proof {
            assert forall|n: nat| n <= usize::MAX implies !digit_run_at(
                bytes@,
                start as int,
                n,
            ) by {
                lemma_decimal_props(n);
                if digit_run_at(bytes@, start as int, n) {
                    let d = decimal_bytes(n);
                    assert(bytes@.subrange(start as int, start + d.len())[0] == d[0]);
                    assert(is_digit(bytes@[start as int]));
                }
            }
        }
        return None;
    }
    if b0 == 48 {
        if start + 1 < len && 48 <= bytes[start + 1] && bytes[start + 1] <= 57 {
            proof {
                assert forall|n: nat| n <= usize::MAX implies !digit_run_at(
                    bytes@,
                    start as int,
                    n,
                ) by {
                    lemma_decimal_props(n);
                    if digit_run_at(bytes@, start as int, n) {
                        let d = decimal_bytes(n);
                        assert(bytes@.subrange(start as int, start + d.len())[0] == d[0]);
                        assert(d[0] == 48);
                        assert(n == 0);
                        assert(d.len() == 1);
                        assert(!is_digit(bytes@[start as int + 1]));
                    }
                }
            }
            return None;
        }
        proof {
            assert(decimal_bytes(0) == seq![48u8]);
            assert(bytes@.subrange(start as int, start as int + 1) =~= decimal_bytes(0));
        }
        return Some((0, start + 1));
    }
    let mut v: usize = (b0 - 48) as usize;
    let mut end = start + 1;
    proof {
        let first = bytes@.subrange(start as int, start as int + 1);
        assert(first =~= seq![b0]);
        assert(first.drop_last() =~= Seq::<u8>::empty());
        assert(digits_value(Seq::<u8>::empty()) == 0);
        assert(digits_value(first) == digits_value(first.drop_last()) * 10 + (first.last() - 48));
        assert(first.last() == b0);
        assert(digits_value(bytes@.subrange(start as int, end as int)) == v);
    }
    while end < len && 48 <= bytes[end] && bytes[end] <= 57
        invariant
            len == bytes@.len(),
            start < end <= len,
            is_digit(bytes@[start as int]),
            bytes@[start as int] != 48,
            forall|q: int| start <= q < end ==> is_digit(#[trigger] bytes@[q]),
            v == digits_value(bytes@.subrange(start as int, end as int)),
        decreases len - end,
    {
        let d = bytes[end] - 48;
        if v > (usize::MAX - (d as usize)) / 10 {
            proof {
                assert forall|n: nat| n <= usize::MAX implies !digit_run_at(
                    bytes@,
                    start as int,
                    n,
                ) by {
                    lemma_decimal_props(n);
                    if digit_run_at(bytes@, start as int, n) {
                        let dn = decimal_bytes(n);
                        let run_end = start + dn.len();
                        assert forall|q: int| start <= q < run_end implies is_digit(
                            #[trigger] bytes@[q],
                        ) by {
                            assert(bytes@.subrange(start as int, run_end)[q - start] == dn[q
                                - start]);
                        }
                        // the run cannot stop inside the digits seen so far
                        if run_end <= end as int {
                            assert(is_digit(bytes@[run_end]));
                            assert(false);
                        }
                        let seen = bytes@.subrange(start as int, end as int + 1);
                        assert forall|q: int| 0 <= q < seen.len() implies is_digit(
                            #[trigger] seen[q],
                        ) by {
                            assert(seen[q] == bytes@[start + q]);
                        }
                        assert(seen =~= bytes@.subrange(start as int, run_end).subrange(
                            0,
                            end as int + 1 - start,
                        ));
                        lemma_prefix_value_le(
                            bytes@.subrange(start as int, run_end),
                            end as int + 1 - start,
                        );
                        lemma_value_of_decimal(n);
                        assert(seen.drop_last() =~= bytes@.subrange(start as int, end as int));
                        assert(digits_value(seen) == v * 10 + d);
                        assert(v * 10 + d > usize::MAX);
                        assert(false);
                    }
                }
            }
            return None;
        }
        let ghost pre = bytes@.subrange(start as int, end as int);
        v = v * 10 + (d as usize);
        end += 1;
        proof {
            let cur = bytes@.subrange(start as int, end as int);
            assert(cur.drop_last() =~= pre);
            assert(cur.last() == bytes@[end as int - 1]);
        }
    }
    proof {
        let run = bytes@.subrange(start as int, end as int);
        assert(run[0] == bytes@[start as int]);
        assert forall|q: int| 0 <= q < run.len() implies is_digit(#[trigger] run[q]) by {
            assert(run[q] == bytes@[start + q]);
        }
        lemma_canonical_digits(run);
    }
    Some((v, end))
}

/// Writes the framebuffer as one complete file: the header for its
/// dimensions, then every row's pixels, bottom row last.
pub fn ppm_encode(pixels: &Vec<Vec<Rgb>>) -> (out: Vec<u8>)
    requires
        pixels@.len() >= 1,
        uniform_width(pixel_view(pixels@), pixels@[0]@.len()),
    ensures
        out@ == image_bytes(pixel_view(pixels@)),
{
    let ghost rows = pixel_view(pixels@);
    let ghost w = pixels@[0]@.len();
    let ghost h = pixels@.len();
    let width = pixels[0].len();
    let height = pixels.len();
    let mut out: Vec<u8> = Vec::new();
    out.push(80);
    out.push(54);
    out.push(10);
    push_decimal(&mut out, width as u64);
    out.push(10);
    push_decimal(&mut out, height as u64);
    out.push(10);
    out.push(50);
    out.push(53);
    out.push(53);
    out.push(10);
    proof {
        assert(out@ =~= header_bytes(w, h));
        assert(rows.subrange(0, h as int) =~= rows);
        assert(out@ + payload_bytes(rows.subrange(0, h as int)) =~= header_bytes(w, h)
            + payload_bytes(rows));
    }
    let mut i: usize = height;
    while i > 0
        invariant
            rows == pixel_view(pixels@),
            h == pixels@.len(),
            w == pixels@[0]@.len(),
            uniform_width(rows, w),
            height == h,
            i <= height,
            out@ + payload_bytes(rows.subrange(0, i as int)) == header_bytes(w, h)
                + payload_bytes(rows),
        decreases i,
    {
        i -= 1;
        let ghost pre_row = out@;
        let ghost row_view = rows[i as int];
        let row = &pixels[i];
        let mut j: usize = 0;
        proof {
            assert(row@ == row_view);
            assert(row_view.subrange(0, row_view.len() as int) =~= row_view);
        }
        while j < row.len()
            invariant
                row@ == row_view,
                j <= row_view.len(),
                out@ + row_bytes(row_view.subrange(j as int, row_view.len() as int)) == pre_row
                    + row_bytes(row_view),
            decreases row.len() - j,
        {
            let ghost rest = row_view.subrange(j as int, row_view.len() as int);
            out.push(row[j].r);
            out.push(row[j].g);
            out.push(row[j].b);
            proof {
                assert(rest[0] == row_view[j as int]);
                assert(rest.drop_first() =~= row_view.subrange(
                    j as int + 1,
                    row_view.len() as int,
                ));
                assert(row_bytes(rest) == seq![rest[0].r, rest[0].g, rest[0].b] + row_bytes(
                    rest.drop_first(),
                ));
                assert(out@ + row_bytes(row_view.subrange(j as int + 1, row_view.len() as int))
                    =~= pre_row + row_bytes(row_view));
            }
            j += 1;
        }
        proof {
            assert(row_view.subrange(row_view.len() as int, row_view.len() as int) =~= Seq::<
                Rgb,
            >::empty());
            assert(row_bytes(row_view.subrange(row_view.len() as int, row_view.len() as int))
                =~= Seq::<u8>::empty());
            assert(out@ =~= pre_row + row_bytes(row_view));
            let sub = rows.subrange(0, i as int + 1);
            assert(sub.last() == row_view);
            assert(sub.drop_last() =~= rows.subrange(0, i as int));
            assert(payload_bytes(sub) == row_bytes(row_view) + payload_bytes(
                rows.subrange(0, i as int),
            ));
            assert(out@ + payload_bytes(rows.subrange(0, i as int)) =~= pre_row + payload_bytes(
                sub,
            ));
        }
    }
    proof {
        assert(rows.subrange(0, 0) =~= Seq::<Seq<Rgb>>::empty());
        assert(payload_bytes(rows.subrange(0, 0)) =~= Seq::<u8>::empty());
        assert(out@ =~= header_bytes(w, h) + payload_bytes(rows));
    }
    out
}

/// The payload read in file order: the first row of the file first.
pub open spec fn file_payload(rows: Seq<Seq<Rgb>>) -> Seq<u8>
    decreases rows.len(),
{
    if rows.len() == 0 {
        Seq::empty()
    } else {
        row_bytes(rows[0]) + file_payload(rows.drop_first())
    }
}

/// A row grows at its end by one pixel's three bytes.
proof fn lemma_row_bytes_snoc(row: Seq<Rgb>, px: Rgb)
    ensures
        row_bytes(row.push(px)) == row_bytes(row) + seq![px.r, px.g, px.b],
    decreases row.len(),
{
    if row.len() == 0 {
        assert(row.push(px).drop_first() =~= Seq::<Rgb>::empty());
        assert(row_bytes(Seq::<Rgb>::empty()) =~= Seq::<u8>::empty());
        assert(row =~= Seq::<Rgb>::empty());
        assert(row.push(px)[0] == px);
        assert(row_bytes(row.push(px)) =~= row_bytes(row) + seq![px.r, px.g, px.b]);
    } else {
        assert(row.push(px).drop_first() =~= row.drop_first().push(px));
        lemma_row_bytes_snoc(row.drop_first(), px);
        assert(row.push(px)[0] == row[0]);
        assert(row_bytes(row.push(px)) =~= row_bytes(row) + seq![px.r, px.g, px.b]);
    }
}

/// The file-order payload grows at its end by one row's bytes.
proof fn lemma_file_payload_snoc(rows: Seq<Seq<Rgb>>, row: Seq<Rgb>)
    ensures
        file_payload(rows.push(row)) == file_payload(rows) + row_bytes(row),
    decreases rows.len(),
{
    if rows.len() == 0 {
        assert(rows.push(row).drop_first() =~= Seq::<Seq<Rgb>>::empty());
        assert(file_payload(Seq::<Seq<Rgb>>::empty()) =~= Seq::<u8>::empty());
        assert(rows =~= Seq::<Seq<Rgb>>::empty());
        assert(rows.push(row)[0] == row);
        assert(file_payload(rows.push(row)) =~= file_payload(rows) + row_bytes(row));
    } else {
        assert(rows.push(row).drop_first() =~= rows.drop_first().push(row));
        lemma_file_payload_snoc(rows.drop_first(), row);
        assert(rows.push(row)[0] == rows[0]);
        assert(file_payload(rows.push(row)) =~= file_payload(rows) + row_bytes(row));
    }
}

/// Reversing the rows turns the file-order payload into the bottom-first
/// payload the writer uses.
proof fn lemma_payload_reverse(rows: Seq<Seq<Rgb>>)
    ensures
        payload_bytes(rows.reverse()) == file_payload(rows),
    decreases rows.len(),
{
    if rows.len() == 0 {
        assert(rows.reverse() =~= rows);
    } else {
        let rev = rows.reverse();
        assert(rev.len() == rows.len());
        assert(rev.last() == rows[0]);
        assert(rev.drop_last() =~= rows.drop_first().reverse());
        lemma_payload_reverse(rows.drop_first());
    }
}

/// One row's bytes are three per pixel.
proof fn lemma_row_bytes_len(row: Seq<Rgb>)
    ensures
        row_bytes(row).len() == 3 * row.len(),
    decreases row.len(),
{
    if row.len() > 0 {
        lemma_row_bytes_len(row.drop_first());
    }
}

/// A payload of `h` rows of width `w` is `3 * w * h` bytes.
proof fn lemma_payload_len(rows: Seq<Seq<Rgb>>, w: nat)
    requires
        uniform_width(rows, w),
    ensures
        payload_bytes(rows).len() == 3 * w * rows.len(),
    decreases rows.len(),
{
    if rows.len() > 0 {
        lemma_row_bytes_len(rows.last());
        assert forall|q: int| 0 <= q < rows.drop_last().len() implies rows.drop_last()[q].len()
            == w by {
            assert(rows.drop_last()[q] == rows[q]);
        }
        lemma_payload_len(rows.drop_last(), w);
        assert(rows.drop_last().len() == rows.len() - 1);
        assert(3 * w * ((rows.len() - 1) as nat) + 3 * w == 3 * w * rows.len())
            by (nonlinear_arith)
            requires
                rows.len() >= 1,
        ;
    }
}

/// Where each part of the header sits.
proof fn lemma_header_shape(w: nat, h: nat)
    ensures
        ({
            let dw = decimal_bytes(w);
            let dh = decimal_bytes(h);
            let hb = header_bytes(w, h);
            &&& hb.len() == 9 + dw.len() + dh.len()
            &&& hb[0] == 80
            &&& hb[1] == 54
            &&& hb[2] == 10
            &&& forall|q: int| 0 <= q < dw.len() ==> hb[(3 + q) as int] == #[trigger] dw[q]
            &&& hb[(3 + dw.len()) as int] == 10
            &&& forall|q: int| 0 <= q < dh.len() ==> hb[(4 + dw.len() + q) as int] == #[trigger] dh[q]
            &&& hb[(4 + dw.len() + dh.len()) as int] == 10
            &&& hb[(5 + dw.len() + dh.len()) as int] == 50
            &&& hb[(6 + dw.len() + dh.len()) as int] == 53
            &&& hb[(7 + dw.len() + dh.len()) as int] == 53
            &&& hb[(8 + dw.len() + dh.len()) as int] == 10
        }),
{
    let dw = decimal_bytes(w);
    let dh = decimal_bytes(h);
    let hb = header_bytes(w, h);
    assert(hb =~= seq![80u8, 54u8, 10u8] + dw + seq![10u8] + dh + seq![
        10u8,
        50u8,
        53u8,
        53u8,
        10u8,
    ]);
}

/// When the input is the file of some framebuffer, a maximal digit run
/// read from position 3 is exactly that framebuffer's width.
proof fn lemma_w_pins(bytes: Seq<u8>, p: Seq<Seq<Rgb>>, w: nat, e1: int)
    requires
        valid_image(p),
        bytes == image_bytes(p),
        3 <= e1 <= bytes.len(),
        bytes.subrange(3, e1) == decimal_bytes(w),
        e1 == bytes.len() || !is_digit(bytes[e1]),
    ensures
        w == p[0].len(),
        e1 == 3 + decimal_bytes(p[0].len()).len(),
        e1 < bytes.len(),
        bytes[e1] == 10,
{
    let pw = p[0].len();
    let ph = p.len();
    let dw = decimal_bytes(pw);
    let dh = decimal_bytes(ph);
    let hb = header_bytes(pw, ph);
    lemma_header_shape(pw, ph);
    lemma_decimal_props(pw);
    lemma_decimal_props(ph);
    lemma_decimal_props(w);
    assert(bytes.len() == hb.len() + payload_bytes(p).len());
    assert forall|q: int| 0 <= q < hb.len() implies bytes[q] == hb[q] by {}
    assert forall|q: int| 3 <= q < 3 + dw.len() implies is_digit(#[trigger] bytes[q]) by {
        assert(bytes[q] == hb[q]);
        assert(hb[3 + (q - 3)] == dw[q - 3]);
    }
    assert(bytes[(3 + dw.len()) as int] == hb[(3 + dw.len()) as int]);
    assert(!is_digit(bytes[(3 + dw.len()) as int]));
    assert forall|q: int| 3 <= q < e1 implies is_digit(#[trigger] bytes[q]) by {
        assert(bytes.subrange(3, e1)[q - 3] == bytes[q]);
        assert(decimal_bytes(w)[q - 3] == bytes[q]);
    }
    lemma_run_unique(bytes, 3, e1, (3 + dw.len()) as int);
    assert(e1 == 3 + dw.len());
    assert forall|q: int| 0 <= q < dw.len() implies bytes.subrange(3, e1)[q] == dw[q] by {
        assert(bytes.subrange(3, e1)[q] == bytes[(3 + q) as int]);
        assert(bytes[(3 + q) as int] == hb[(3 + q) as int]);
        assert(hb[(3 + q) as int] == dw[q]);
    }
    assert(decimal_bytes(w) =~= dw);
    lemma_value_of_decimal(w);
    lemma_value_of_decimal(pw);
    assert(w == pw);
    assert(bytes[e1] == hb[(3 + dw.len()) as int]);
}

/// When the input is the file of some framebuffer, the parsed width and
/// height are that framebuffer's, the fixed tail of the header follows,
/// and the rest of the input is exactly the payload.
proof fn lemma_header_pins(bytes: Seq<u8>, p: Seq<Seq<Rgb>>, w: nat, h: nat, e1: int, e2: int)
    requires
        valid_image(p),
        bytes == image_bytes(p),
        3 <= e1 <= bytes.len(),
        bytes.subrange(3, e1) == decimal_bytes(w),
        e1 == bytes.len() || !is_digit(bytes[e1]),
        e1 + 1 <= e2 <= bytes.len(),
        bytes.subrange(e1 + 1, e2) == decimal_bytes(h),
        e2 == bytes.len() || !is_digit(bytes[e2]),
    ensures
        w == p[0].len(),
        h == p.len(),
        e2 + 5 <= bytes.len(),
        header_bytes(w, h).len() == e2 + 5,
        bytes[e2] == 10,
        bytes[e2 + 1] == 50,
        bytes[e2 + 2] == 53,
        bytes[e2 + 3] == 53,
        bytes[e2 + 4] == 10,
        bytes.len() == e2 + 5 + 3 * w * h,
        bytes.subrange(e2 + 5, bytes.len() as int) == payload_bytes(p),
{
    let pw = p[0].len();
    let ph = p.len();
    let dw = decimal_bytes(pw);
    let dh = decimal_bytes(ph);
    let hb = header_bytes(pw, ph);
    lemma_w_pins(bytes, p, w, e1);
    lemma_header_shape(pw, ph);
    lemma_decimal_props(pw);
    lemma_decimal_props(ph);
    lemma_decimal_props(h);
    assert(bytes.len() == hb.len() + payload_bytes(p).len());
    assert forall|q: int| 0 <= q < hb.len() implies bytes[q] == hb[q] by {}
    assert forall|q: int| e1 + 1 <= q < e1 + 1 + dh.len() implies is_digit(
        #[trigger] bytes[q],
    ) by {
        assert(bytes[q] == hb[q]);
        assert(hb[(4 + dw.len() + (q - e1 - 1)) as int] == dh[q - e1 - 1]);
    }
    assert(bytes[(4 + dw.len() + dh.len()) as int] == hb[(4 + dw.len() + dh.len()) as int]);
    assert(!is_digit(bytes[(e1 + 1 + dh.len()) as int]));
    assert forall|q: int| e1 + 1 <= q < e2 implies is_digit(#[trigger] bytes[q]) by {
        assert(bytes.subrange(e1 + 1, e2)[q - e1 - 1] == bytes[q]);
        assert(decimal_bytes(h)[q - e1 - 1] == bytes[q]);
    }
    lemma_run_unique(bytes, e1 + 1, e2, (e1 + 1 + dh.len()) as int);
    assert(e2 == e1 + 1 + dh.len());
    assert forall|q: int| 0 <= q < dh.len() implies bytes.subrange(e1 + 1, e2)[q] == dh[q] by {
        assert(bytes.subrange(e1 + 1, e2)[q] == bytes[e1 + 1 + q]);
        assert(bytes[e1 + 1 + q] == hb[(4 + dw.len() + q) as int]);
        assert(hb[(4 + dw.len() + q) as int] == dh[q]);
    }
    assert(decimal_bytes(h) =~= dh);
    lemma_value_of_decimal(h);
    lemma_value_of_decimal(ph);
    assert(h == ph);
    assert(hb.len() == e2 + 5);
    assert(bytes[e2] == hb[(4 + dw.len() + dh.len()) as int]);
    assert(bytes[e2 + 1] == hb[(5 + dw.len() + dh.len()) as int]);
    assert(bytes[e2 + 2] == hb[(6 + dw.len() + dh.len()) as int]);
    assert(bytes[e2 + 3] == hb[(7 + dw.len() + dh.len()) as int]);
    assert(bytes[e2 + 4] == hb[(8 + dw.len() + dh.len()) as int]);
    lemma_payload_len(p, pw);
    assert(bytes.subrange(e2 + 5, bytes.len() as int) =~= payload_bytes(p));
}

/// Two rows of one width with the same bytes are the same row.
proof fn lemma_row_bytes_injective(a: Seq<Rgb>, b: Seq<Rgb>)
    requires
        a.len() == b.len(),
        row_bytes(a) == row_bytes(b),
    ensures
        a == b,
    decreases a.len(),
{
    if a.len() == 0 {
        assert(a =~= b);
    } else {
        assert(row_bytes(a)[0] == a[0].r && row_bytes(a)[1] == a[0].g && row_bytes(a)[2]
            == a[0].b);
        assert(row_bytes(b)[0] == b[0].r && row_bytes(b)[1] == b[0].g && row_bytes(b)[2]
            == b[0].b);
        assert(a[0] =~= b[0]);
        lemma_row_bytes_len(a.drop_first());
        lemma_row_bytes_len(b.drop_first());
        assert(row_bytes(a.drop_first()) =~= row_bytes(b.drop_first())) by {
            assert forall|q: int| 0 <= q < row_bytes(a.drop_first()).len() implies row_bytes(
                a.drop_first(),
            )[q] == row_bytes(b.drop_first())[q] by {
                assert(row_bytes(a)[3 + q] == row_bytes(a.drop_first())[q]);
                assert(row_bytes(b)[3 + q] == row_bytes(b.drop_first())[q]);
            }
        }
        lemma_row_bytes_injective(a.drop_first(), b.drop_first());
        assert forall|i: int| 0 <= i < a.len() implies a[i] == b[i] by {
            if i > 0 {
                assert(a.drop_first()[i - 1] == a[i]);
                assert(b.drop_first()[i - 1] == b[i]);
            }
        }
        assert(a =~= b);
    }
}

/// Two framebuffers of one shape with the same payload are the same
/// framebuffer.
proof fn lemma_payload_injective(p: Seq<Seq<Rgb>>, q: Seq<Seq<Rgb>>, w: nat)
    requires
        p.len() == q.len(),
        uniform_width(p, w),
        uniform_width(q, w),
        payload_bytes(p) == payload_bytes(q),
    ensures
        p == q,
    decreases p.len(),
{
    if p.len() == 0 {
        assert(p =~= q);
    } else {
        lemma_row_bytes_len(p.last());
        lemma_row_bytes_len(q.last());
        assert(row_bytes(p.last()) =~= row_bytes(q.last())) by {
            assert forall|i: int| 0 <= i < row_bytes(p.last()).len() implies row_bytes(p.last())[i]
                == row_bytes(q.last())[i] by {
                assert(payload_bytes(p)[i] == row_bytes(p.last())[i]);
                assert(payload_bytes(q)[i] == row_bytes(q.last())[i]);
            }
        }
        lemma_row_bytes_injective(p.last(), q.last());
        lemma_payload_len(p, w);
        assert forall|i: int| 0 <= i < p.drop_last().len() implies p.drop_last()[i].len() == w by {
            assert(p.drop_last()[i] == p[i]);
        }
        assert forall|i: int| 0 <= i < q.drop_last().len() implies q.drop_last()[i].len() == w by {
            assert(q.drop_last()[i] == q[i]);
        }
        assert(payload_bytes(p.drop_last()) =~= payload_bytes(q.drop_last())) by {
            let off = row_bytes(p.last()).len();
            assert forall|i: int| 0 <= i < payload_bytes(p.drop_last()).len() implies
                payload_bytes(p.drop_last())[i] == payload_bytes(q.drop_last())[i] by {
                assert(payload_bytes(p)[off + i] == payload_bytes(p.drop_last())[i]);
                assert(payload_bytes(q)[off + i] == payload_bytes(q.drop_last())[i]);
            }
        }
        lemma_payload_injective(p.drop_last(), q.drop_last(), w);
        assert forall|i: int| 0 <= i < p.len() implies p[i] == q[i] by {
            if i < p.len() - 1 {
                assert(p.drop_last()[i] == p[i]);
                assert(q.drop_last()[i] == q[i]);
            } else {
                assert(p[i] == p.last() && q[i] == q.last());
            }
        }
        assert(p =~= q);
    }
}

/// No two framebuffers produce the same file: reading a file back gives
/// exactly the framebuffer it was written from.
pub proof fn lemma_image_bytes_injective(p: Seq<Seq<Rgb>>, q: Seq<Seq<Rgb>>)
    requires
        valid_image(p),
        valid_image(q),
        image_bytes(p) == image_bytes(q),
    ensures
        p == q,
{
    let bytes = image_bytes(q);
    let qw = q[0].len();
    let qh = q.len();
    let dw = decimal_bytes(qw);
    let dh = decimal_bytes(qh);
    let hb = header_bytes(qw, qh);
    lemma_header_shape(qw, qh);
    lemma_decimal_props(qw);
    lemma_decimal_props(qh);
    assert(bytes.len() == hb.len() + payload_bytes(q).len());
    assert forall|i: int| 0 <= i < hb.len() implies bytes[i] == hb[i] by {}
    let e1 = 3 + dw.len() as int;
    let e2 = e1 + 1 + dh.len() as int;
    assert forall|i: int| 0 <= i < dw.len() implies bytes.subrange(3, e1)[i] == dw[i] by {
        assert(bytes.subrange(3, e1)[i] == bytes[3 + i]);
        assert(bytes[3 + i] == hb[3 + i]);
        assert(hb[3 + i] == dw[i]);
    }
    assert(bytes.subrange(3, e1) =~= dw);
    assert(bytes[e1] == hb[(3 + dw.len()) as int]);
    assert(!is_digit(bytes[e1]));
    assert forall|i: int| 0 <= i < dh.len() implies bytes.subrange(e1 + 1, e2)[i] == dh[i] by {
        assert(bytes.subrange(e1 + 1, e2)[i] == bytes[e1 + 1 + i]);
        assert(bytes[e1 + 1 + i] == hb[(4 + dw.len() + i) as int]);
        assert(hb[(4 + dw.len() + i) as int] == dh[i]);
    }
    assert(bytes.subrange(e1 + 1, e2) =~= dh);
    assert(bytes[e2] == hb[(4 + dw.len() + dh.len()) as int]);
    assert(!is_digit(bytes[e2]));
    lemma_header_pins(bytes, p, qw, qh, e1, e2);
    assert(hb.len() == e2 + 5);
    assert(bytes.subrange(e2 + 5, bytes.len() as int) =~= payload_bytes(q));
    assert(payload_bytes(p) == payload_bytes(q));
    lemma_payload_injective(p, q, qw);
}

/// A framebuffer of machine-representable dimensions.
pub open spec fn representable(rows: Seq<Seq<Rgb>>) -> bool {
    &&& valid_image(rows)
    &&& rows.len() <= usize::MAX
    &&& rows[0].len() <= usize::MAX
}

/// Reads one complete file back into a framebuffer: exactly the files
/// that `ppm_encode` writes for some representable framebuffer are
/// accepted, and the framebuffer read back is the one the file was
/// written from.
pub fn ppm_decode(bytes: &Vec<u8>) -> (res: Option<Vec<Vec<Rgb>>>)
    ensures
        match res {
            Some(rows) => {
                &&& rows@.len() >= 1
                &&& uniform_width(pixel_view(rows@), rows@[0]@.len())
                &&& bytes@ == image_bytes(pixel_view(rows@))
            },
            None => forall|p: Seq<Seq<Rgb>>| representable(p) ==> bytes@ != image_bytes(p),
        },
{
    let len = bytes.len();
    if len < 3 || bytes[0] != 80 || bytes[1] != 54 || bytes[2] != 10 {
        proof {
            assert forall|p: Seq<Seq<Rgb>>| representable(p) implies bytes@ != image_bytes(
                p,
            ) by {
                if bytes@ == image_bytes(p) {
                    let hb = header_bytes(p[0].len(), p.len());
                    lemma_header_shape(p[0].len(), p.len());
                    lemma_decimal_props(p[0].len());
                    lemma_decimal_props(p.len());
                    assert(bytes@[0] == hb[0] && bytes@[1] == hb[1] && bytes@[2] == hb[2]);
                    assert(false);
                }
            }
        }
        return None;
    }
    let first = match parse_number(bytes, 3) {
        Some(pair) => pair,
        None => {
            proof {
                assert forall|p: Seq<Seq<Rgb>>| representable(p) implies bytes@ != image_bytes(
                    p,
                ) by {
                    if bytes@ == image_bytes(p) {
                        let pw = p[0].len();
                        let dw = decimal_bytes(pw);
                        let hb = header_bytes(pw, p.len());
                        lemma_header_shape(pw, p.len());
                        lemma_decimal_props(pw);
                        assert(bytes@.len() == hb.len() + payload_bytes(p).len());
                        assert forall|q: int| 0 <= q < dw.len() implies bytes@.subrange(
                            3,
                            (3 + dw.len()) as int,
                        )[q] == dw[q] by {
                            assert(bytes@.subrange(3, (3 + dw.len()) as int)[q] == bytes@[(3 + q) as int]);
                            assert(bytes@[(3 + q) as int] == hb[(3 + q) as int]);
                            assert(hb[(3 + q) as int] == dw[q]);
                        }
                        assert(bytes@.subrange(3, (3 + dw.len()) as int) =~= dw);
                        assert(bytes@[(3 + dw.len()) as int] == hb[(3 + dw.len()) as int]);
                        assert(digit_run_at(bytes@, 3, pw));
                        assert(false);
                    }
                }
            }
            return None;
        },
    };
    let w = first.0;
    let e1 = first.1;
    if e1 >= len || bytes[e1] != 10 {
        proof {
            assert forall|p: Seq<Seq<Rgb>>| representable(p) implies bytes@ != image_bytes(
                p,
            ) by {
                if bytes@ == image_bytes(p) {
                    lemma_w_pins(bytes@, p, w as nat, e1 as int);
                    assert(false);
                }
            }
        }
        return None;
    }
    let second = match parse_number(bytes, e1 + 1) {
        Some(pair) => pair,
        None => {
            proof {
                assert forall|p: Seq<Seq<Rgb>>| representable(p) implies bytes@ != image_bytes(
                    p,
                ) by {
                    if bytes@ == image_bytes(p) {
                        lemma_w_pins(bytes@, p, w as nat, e1 as int);
                        let pw = p[0].len();
                        let ph = p.len();
                        let dw = decimal_bytes(pw);
                        let dh = decimal_bytes(ph);
                        let hb = header_bytes(pw, ph);
                        lemma_header_shape(pw, ph);
                        lemma_decimal_props(ph);
                        assert(bytes@.len() == hb.len() + payload_bytes(p).len());
                        assert forall|q: int| 0 <= q < dh.len() implies bytes@.subrange(
                            e1 + 1,
                            (e1 + 1 + dh.len()) as int,
                        )[q] == dh[q] by {
                            assert(bytes@.subrange(e1 + 1, (e1 + 1 + dh.len()) as int)[q] == bytes@[e1 + 1
                                + q]);
                            assert(bytes@[e1 + 1 + q] == hb[(4 + dw.len() + q) as int]);
                            assert(hb[(4 + dw.len() + q) as int] == dh[q]);
                        }
                        assert(bytes@.subrange(e1 + 1, (e1 + 1 + dh.len()) as int) =~= dh);
                        assert(bytes@[(e1 + 1 + dh.len()) as int] == hb[(4 + dw.len() + dh.len()) as int]);
                        assert(digit_run_at(bytes@, e1 + 1, ph));
                        assert(false);
                    }
                }
            }
            return None;
        },
    };
    let h = second.0;
    let e2 = second.1;
    if h == 0 || len - e2 < 5 || bytes[e2] != 10 || bytes[e2 + 1] != 50 || bytes[e2 + 2] != 53
        || bytes[e2 + 3] != 53 || bytes[e2 + 4] != 10 {
        proof {
            assert forall|p: Seq<Seq<Rgb>>| representable(p) implies bytes@ != image_bytes(
                p,
            ) by {
                if bytes@ == image_bytes(p) {
                    lemma_header_pins(bytes@, p, w as nat, h as nat, e1 as int, e2 as int);
                    assert(false);
                }
            }
        }
        return None;
    }
    let ps = e2 + 5;

    let mut file_rows: Vec<Vec<Rgb>> = Vec::new();
    let mut pos: usize = ps;
    let mut r: usize = 0;
    proof {
        assert(bytes@.subrange(ps as int, ps as int) =~= Seq::<u8>::empty());
        assert(pixel_view(file_rows@) =~= Seq::<Seq<Rgb>>::empty());
    }
    while r < h
        invariant
            len == bytes@.len(),
            3 <= e1 < e2,
            e2 + 5 == ps <= len,
            h >= 1,
            bytes@.subrange(3, e1 as int) == decimal_bytes(w as nat),
            e1 == len || !is_digit(bytes@[e1 as int]),
            bytes@.subrange(e1 as int + 1, e2 as int) == decimal_bytes(h as nat),
            e2 == len || !is_digit(bytes@[e2 as int]),
            r <= h,
            file_rows@.len() == r,
            forall|q: int| 0 <= q < file_rows@.len() ==> #[trigger] file_rows@[q]@.len() == w,
            pos as int == ps + 3 * (w as int) * (r as int),
            pos <= len,
            file_payload(pixel_view(file_rows@)) == bytes@.subrange(ps as int, pos as int),
        decreases h - r,
    {
        let ghost row_start = pos as int;
        let mut row: Vec<Rgb> = Vec::new();
        let mut c: usize = 0;
        proof {
            assert(bytes@.subrange(row_start, row_start) =~= Seq::<u8>::empty());
        }
        while c < w
            invariant
                len == bytes@.len(),
                3 <= e1 < e2,
                e2 + 5 == ps <= len,
                h >= 1,
                bytes@.subrange(3, e1 as int) == decimal_bytes(w as nat),
                e1 == len || !is_digit(bytes@[e1 as int]),
                bytes@.subrange(e1 as int + 1, e2 as int) == decimal_bytes(h as nat),
                e2 == len || !is_digit(bytes@[e2 as int]),
                r < h,
                c <= w,
                row@.len() == c,
                row_start == ps + 3 * (w as int) * (r as int),
                pos as int == row_start + 3 * (c as int),
                pos <= len,
                row_bytes(row@) == bytes@.subrange(row_start, pos as int),
            decreases w - c,
        {
            if len - pos < 3 {
                proof {
                    assert forall|p: Seq<Seq<Rgb>>| representable(p) implies bytes@
                        != image_bytes(p) by {
                        if bytes@ == image_bytes(p) {
                            lemma_header_pins(
                                bytes@,
                                p,
                                w as nat,
                                h as nat,
                                e1 as int,
                                e2 as int,
                            );
                            assert(3 * (w as int) * (r as int) + 3 * (c as int) + 3 <= 3 * (
                            w as int) * (h as int)) by (nonlinear_arith)
                                requires
                                    0 <= c < w,
                                    0 <= r < h,
                            ;
                            assert(false);
                        }
                    }
                }
                return None;
            }
            let ghost pre = row@;
            let px = Rgb { r: bytes[pos], g: bytes[pos + 1], b: bytes[pos + 2] };
            row.push(px);
            pos = pos + 3;
            proof {
                lemma_row_bytes_snoc(pre, px);
                assert(bytes@.subrange(row_start, pos as int) =~= bytes@.subrange(
                    row_start,
                    pos as int - 3,
                ) + seq![px.r, px.g, px.b]);
            }
            c += 1;
        }
        let ghost pre_rows = file_rows@;
        file_rows.push(row);
        r += 1;
        proof {
            assert(pixel_view(file_rows@) =~= pixel_view(pre_rows).push(row@));
            lemma_file_payload_snoc(pixel_view(pre_rows), row@);
            assert(bytes@.subrange(ps as int, pos as int) =~= bytes@.subrange(
                ps as int,
                row_start,
            ) + bytes@.subrange(row_start, pos as int));
            assert(3 * (w as int) * (r as int) == 3 * (w as int) * (r as int - 1) + 3 * (
            w as int)) by (nonlinear_arith)
                requires
                    r >= 1,
            ;
        }
    }
    if pos != len {
        proof {
            assert forall|p: Seq<Seq<Rgb>>| representable(p) implies bytes@ != image_bytes(
                p,
            ) by {
                if bytes@ == image_bytes(p) {
                    lemma_header_pins(bytes@, p, w as nat, h as nat, e1 as int, e2 as int);
                    assert(false);
                }
            }
        }
        return None;
    }

    let mut rows: Vec<Vec<Rgb>> = Vec::new();
    let ghost file_view = file_rows@;
    let total = file_rows.len();
    let mut taken: usize = 0;
    while taken < total
        invariant
            total == file_view.len(),
            taken <= total,
            file_rows@ =~= file_view.subrange(0, file_view.len() - taken),
            rows@ =~= file_view.subrange(file_view.len() - taken, file_view.len() as int).reverse(),
        decreases total - taken,
    {
        let ghost pre_left = file_rows@;
        let ghost pre_rows = rows@;
        let row = match file_rows.pop() {
            Some(row) => row,
            None => {
                proof {
                    assert(false);
                }
                return None;
            },
        };
        rows.push(row);
        taken += 1;
        proof {
            assert(file_rows@ =~= file_view.subrange(0, file_view.len() - taken));
            let sub = file_view.subrange(file_view.len() - taken, file_view.len() as int);
            assert(sub.reverse().len() == sub.len());
            assert forall|q: int| 0 <= q < sub.len() implies rows@[q] == sub.reverse()[q] by {
                if q < pre_rows.len() {
                    let old_sub = file_view.subrange(
                        file_view.len() - taken + 1,
                        file_view.len() as int,
                    );
                    assert(pre_rows[q] == old_sub.reverse()[q]);
                    assert(old_sub.reverse()[q] == old_sub[old_sub.len() - 1 - q]);
                    assert(old_sub[old_sub.len() - 1 - q] == file_view[file_view.len() - 1 - q]);
                    assert(sub.reverse()[q] == sub[sub.len() - 1 - q]);
                    assert(sub[sub.len() - 1 - q] == file_view[file_view.len() - 1 - q]);
                } else {
                    assert(q == sub.len() - 1);
                    assert(rows@[q] == row);
                    assert(sub.reverse()[q] == sub[0]);
                    assert(sub[0] == file_view[file_view.len() - taken]);
                    assert(row == pre_left[pre_left.len() - 1]);
                }
            }
            assert(rows@ =~= sub.reverse());
        }
    }
    proof {
        assert(file_view.subrange(0, 0).len() == 0);
        assert(taken == file_view.len());
        assert(file_view.subrange(0, file_view.len() as int) =~= file_view);
        assert(rows@ =~= file_view.reverse());
        assert(pixel_view(rows@) =~= pixel_view(file_view).reverse());
        lemma_payload_reverse(pixel_view(file_view));
        assert(payload_bytes(pixel_view(rows@)) == bytes@.subrange(ps as int, len as int));

        let w_n = w as nat;
        let h_n = h as nat;
        assert(rows@.len() == h);
        assert(rows@[0]@.len() == w) by {
            assert(rows@[0] == file_view.reverse()[0]);
            assert(file_view.reverse()[0] == file_view[file_view.len() - 1]);
        }
        assert forall|q: int| 0 <= q < pixel_view(rows@).len() implies pixel_view(rows@)[q].len()
            == w_n by {
            assert(rows@[q] == file_view.reverse()[q]);
            assert(file_view.reverse()[q] == file_view[file_view.len() - 1 - q]);
        }

        lemma_header_shape(w_n, h_n);
        let hb = header_bytes(w_n, h_n);
        let dw = decimal_bytes(w_n);
        let dh = decimal_bytes(h_n);
        assert(dw.len() == e1 - 3) by {
            assert(bytes@.subrange(3, e1 as int).len() == e1 - 3);
        }
        assert(dh.len() == e2 - e1 - 1) by {
            assert(bytes@.subrange(e1 as int + 1, e2 as int).len() == e2 - e1 - 1);
        }
        assert(hb.len() == ps);
        assert forall|q: int| 0 <= q < ps implies hb[q] == bytes@[q] by {
            if q < 3 {
            } else if q < e1 {
                assert(hb[3 + (q - 3)] == dw[q - 3]);
                assert(bytes@.subrange(3, e1 as int)[q - 3] == bytes@[q]);
            } else if q == e1 {
                assert(hb[(3 + dw.len()) as int] == 10);
            } else if q < e2 {
                assert(hb[(4 + dw.len() + (q - e1 - 1)) as int] == dh[q - e1 - 1]);
                assert(bytes@.subrange(e1 as int + 1, e2 as int)[q - e1 - 1] == bytes@[q]);
            } else {
            }
        }
        assert(hb =~= bytes@.subrange(0, ps as int));
        assert(bytes@ =~= bytes@.subrange(0, ps as int) + bytes@.subrange(ps as int, len as int));
        assert(bytes@ == image_bytes(pixel_view(rows@)));
    }
    Some(rows)
}

} // verus!
