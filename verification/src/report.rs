//! Report rendering: the textual rows handed to the output sink.
//!
//! A data row is the count in decimal, right-aligned to a width of five,
//! a tab, and the address bytes. The report is a header row, a separator
//! row, and one data row per ranked entry.

use vstd::prelude::*;

use crate::rank::view_entries;
use crate::scan::lines_view;

verus! {

/// Decimal digits of `n`, most significant first, no leading zeros.
pub open spec fn dec_digits(n: nat) -> Seq<u8>
    decreases n,
{
    if n < 10 {
        seq![(48 + n) as u8]
    } else {
        dec_digits(n / 10).push((48 + n % 10) as u8)
    }
}

/// `d` padded on the left with spaces to a width of five; wider stays.
pub open spec fn padded(d: Seq<u8>) -> Seq<u8> {
    if d.len() >= 5 {
        d
    } else {
        Seq::new((5 - d.len()) as nat, |i: int| 32u8) + d
    }
}

/// One data row: padded count, a tab, the address.
pub open spec fn row_spec(count: nat, addr: Seq<u8>) -> Seq<u8> {
    padded(dec_digits(count)) + seq![9u8] + addr
}

/// The header row `Count<tab>Name`.
pub open spec fn header_line() -> Seq<u8> {
    seq![67u8, 111u8, 117u8, 110u8, 116u8, 9u8, 78u8, 97u8, 109u8, 101u8]
}

/// The separator row `-----<tab>----`.
pub open spec fn separator_line() -> Seq<u8> {
    seq![45u8, 45u8, 45u8, 45u8, 45u8, 9u8, 45u8, 45u8, 45u8, 45u8]
}

/// The whole report: header, separator, one row per entry, in order.
pub open spec fn report_spec(rows: Seq<(Seq<u8>, u64)>) -> Seq<Seq<u8>> {
    Seq::new(
        rows.len() + 2,
        |i: int|
            if i == 0 {
                header_line()
            } else if i == 1 {
                separator_line()
            } else {
                row_spec(rows[i - 2].1 as nat, rows[i - 2].0)
            },
    )
}

/// Appends `src` to `dst`.
fn append_bytes(dst: &mut Vec<u8>, src: &Vec<u8>)
    ensures
        final(dst)@ == old(dst)@ + src@,
{
    let n = src.len();
    let mut i: usize = 0;
    while i < n
        invariant
            n == src@.len(),
            0 <= i <= n,
            dst@ =~= old(dst)@ + src@.take(i as int),
        decreases n - i,
    {
        dst.push(src[i]);
        assert(dst@ =~= old(dst)@ + src@.take(i + 1));
        i += 1;
    }
    assert(dst@ =~= old(dst)@ + src@);
}

/// The decimal digits of `c`, most significant first.
fn u64_digits(c: u64) -> (r: Vec<u8>)
    ensures
        r@ == dec_digits(c as nat),
    decreases c,
{
    if c < 10 {
        let mut r: Vec<u8> = Vec::new();
        r.push(48 + (c as u8));
        assert(r@ =~= dec_digits(c as nat));
        r
    } else {
        let mut r = u64_digits(c / 10);
        r.push(48 + ((c % 10) as u8));
        assert(r@ =~= dec_digits(c as nat));
        r
    }
}

/// Renders one data row for an address and its count.
pub fn render_row(count: u64, addr: &Vec<u8>) -> (r: Vec<u8>)
    ensures
        r@ == row_spec(count as nat, addr@),
{
    let d = u64_digits(count);
    let mut r: Vec<u8> = Vec::new();
    let dn = d.len();
    if dn < 5 {
        let pad = 5 - dn;
        let mut i: usize = 0;
        while i < pad
            invariant
                0 <= i <= pad,
                r@.len() == i,
                forall|j: int| 0 <= j < i ==> r@[j] == 32u8,
            decreases pad - i,
        {
            r.push(32);
            i += 1;
        }
    }
    append_bytes(&mut r, &d);
    assert(r@ =~= padded(dec_digits(count as nat)));
    r.push(9);
    append_bytes(&mut r, addr);
    assert(r@ =~= row_spec(count as nat, addr@));
    r
}

/// The header row as bytes.
pub fn header_bytes() -> (r: Vec<u8>)
    ensures
        r@ == header_line(),
{
    let mut r: Vec<u8> = Vec::new();
    r.push(67);
    r.push(111);
    r.push(117);
    r.push(110);
    r.push(116);
    r.push(9);
    r.push(78);
    r.push(97);
    r.push(109);
    r.push(101);
    assert(r@ =~= header_line());
    r
}

/// The separator row as bytes.
pub fn separator_bytes() -> (r: Vec<u8>)
    ensures
        r@ == separator_line(),
{
    let mut r: Vec<u8> = Vec::new();
    let mut i: usize = 0;
    while i < 10
        invariant
            0 <= i <= 10,
            r@.len() == i,
            forall|j: int| 0 <= j < i ==> r@[j] == (if j == 5 {
                9u8
            } else {
                45u8
            }),
        decreases 10 - i,
    {
        if i == 5 {
            r.push(9);
        } else {
            r.push(45);
        }
        i += 1;
    }
    assert(r@ =~= separator_line());
    r
}

/// Renders the whole report for a ranked list of entries.
pub fn render_report(entries: &Vec<(Vec<u8>, u64)>) -> (r: Vec<Vec<u8>>)
    ensures
        lines_view(r@) == report_spec(view_entries(entries@)),
{
    let mut r: Vec<Vec<u8>> = Vec::new();
    r.push(header_bytes());
    r.push(separator_bytes());
    let n = entries.len();
    let mut i: usize = 0;
    while i < n
        invariant
            n == entries@.len(),
            0 <= i <= n,
            r@.len() == i + 2,
            forall|j: int|
                0 <= j < i + 2 ==> #[trigger] lines_view(r@)[j] == report_spec(
                    view_entries(entries@),
                )[j],
        decreases n - i,
    {
        let row = render_row(entries[i].1, &entries[i].0);
        let ghost prev = r@;
        let ghost rowv = row@;
        r.push(row);
        proof {
            assert(lines_view(r@) =~= lines_view(prev).push(rowv));
            assert(view_entries(entries@)[i as int] == (entries@[i as int].0@, entries@[i as int].1));
            assert(lines_view(r@)[i + 2] == report_spec(view_entries(entries@))[i + 2]);
        }
        i += 1;
    }
    assert(lines_view(r@) =~= report_spec(view_entries(entries@)));
    r
}

} // verus!
