//! The text that lists an archive: one line per entry with its kind letter,
//! its length right-aligned to the widest length, and its path.
use vstd::prelude::*;
use vstd::utf8::*;

use crate::{entries, EntryView, FileType, Savn};

verus! {

/// How many decimal digits `n` is written with; zero takes one.
pub open spec fn digits(n: nat) -> nat
    decreases n,
{
    if n < 10 {
        1
    } else {
        1 + digits(n / 10)
    }
}

/// The decimal digits of `n` as ASCII bytes.
pub open spec fn decimal(n: nat) -> Seq<u8>
    decreases n,
{
    if n < 10 {
        seq![(48 + n) as u8]
    } else {
        decimal(n / 10).push((48 + n % 10) as u8)
    }
}

/// The largest contents length in an archive; zero for an empty one.
pub open spec fn max_len(es: Seq<EntryView>) -> nat
    decreases es.len(),
{
    if es.len() == 0 {
        0
    } else {
        let m = max_len(es.drop_last());
        let l = es.last().contents.len();
        if l > m {
            l
        } else {
            m
        }
    }
}

/// The width of the length column: the digits of the largest length.
pub open spec fn column_width(es: Seq<EntryView>) -> nat {
    digits(max_len(es))
}

/// The letter that shows an entry's kind.
pub open spec fn kind_letter(k: FileType) -> u8 {
    match k {
        FileType::RegularFile => 102,
        FileType::ExecutableFile => 120,
        FileType::SoftSymlink => 108,
    }
}

/// `k` spaces.
pub open spec fn spaces(k: int) -> Seq<u8> {
    Seq::new(k as nat, |_i: int| 32u8)
}

/// The line of one entry, with the length column `w` wide.
pub open spec fn list_line(e: EntryView, w: nat) -> Seq<u8> {
    seq![kind_letter(e.file_type), 32u8] + spaces(w - digits(e.contents.len())) + decimal(
        e.contents.len(),
    ) + seq![32u8] + encode_utf8(e.path) + seq![10u8]
}

/// The lines of a run of entries, one after the other.
pub open spec fn list_lines(es: Seq<EntryView>, w: nat) -> Seq<u8>
    decreases es.len(),
{
    if es.len() == 0 {
        seq![]
    } else {
        list_lines(es.drop_last(), w) + list_line(es.last(), w)
    }
}

/// The listing of an archive.
pub open spec fn list_text(es: Seq<EntryView>) -> Seq<u8> {
    list_lines(es, column_width(es))
}

proof fn lemma_digits_le(n: nat)
    requires
        n >= 1,
    ensures
        digits(n) <= n,
    decreases n,
{
    if n >= 10 {
        lemma_digits_le(n / 10);
    }
}

proof fn lemma_digits_mono(a: nat, b: nat)
    requires
        a <= b,
    ensures
        digits(a) <= digits(b),
    decreases b,
{
    if b >= 10 && a >= 10 {
        lemma_digits_mono(a / 10, b / 10);
    }
}

proof fn lemma_max_len(es: Seq<EntryView>, i: int)
    requires
        0 <= i < es.len(),
    ensures
        es[i].contents.len() <= max_len(es),
    decreases es.len(),
{
    if i < es.len() - 1 {
        lemma_max_len(es.drop_last(), i);
    }
}

/// The number of decimal digits of `n`.
pub fn digit_count(n: usize) -> (r: usize)
    ensures
        r == digits(n as nat),
{
    let mut r: usize = 1;
    let mut m: usize = n;
    while m >= 10
        invariant
            r + digits(m as nat) == digits(n as nat) + 1,
            1 <= r,
            m <= n,
        decreases m,
    {
        proof {
            lemma_digits_le(n as nat);
            assert(digits((m / 10) as nat) >= 1);
        }
        m = m / 10;
        r = r + 1;
    }
    r
}

fn push_decimal(out: &mut Vec<u8>, n: usize)
    ensures
        final(out)@ == old(out)@ + decimal(n as nat),
    decreases n,
{
    if n >= 10 {
        push_decimal(out, n / 10);
    }
    out.push(48 + (n % 10) as u8);
    assert(final(out)@ =~= old(out)@ + decimal(n as nat));
}

fn letter(k: FileType) -> (r: u8)
    ensures
        r == kind_letter(k),
{
    match k {
        FileType::RegularFile => 102,
        FileType::ExecutableFile => 120,
        FileType::SoftSymlink => 108,
    }
}

/// The text that lists `savn`: one line per entry, in order.
pub fn list_savn(savn: &Savn) -> (r: Vec<u8>)
    ensures
        r@ == list_text(entries(savn@)),
{
    let ghost es = entries(savn@);
    let mut longest: usize = 0;
    let mut i: usize = 0;
    while i < savn.len()
        invariant
            i <= savn@.len(),
            es == entries(savn@),
            longest == max_len(es.take(i as int)),
        decreases savn@.len() - i,
    {
        assert(es.take(i + 1).drop_last() =~= es.take(i as int));
        if savn[i].contents.len() > longest {
            longest = savn[i].contents.len();
        }
        i += 1;
    }
    assert(es.take(i as int) =~= es);
    let w = digit_count(longest);
    let mut out: Vec<u8> = Vec::new();
    let mut i: usize = 0;
    while i < savn.len()
        invariant
            i <= savn@.len(),
            es == entries(savn@),
            w == column_width(es),
            out@ == list_lines(es.take(i as int), w as nat),
        decreases savn@.len() - i,
    {
        let e = &savn[i];
        let len = e.contents.len();
        let d = digit_count(len);
        proof {
            lemma_max_len(es, i as int);
            lemma_digits_mono(len as nat, max_len(es));
        }
        let ghost base = out@;
        out.push(letter(e.file_type));
        out.push(32);
        let mut pad: usize = d;
        while pad < w
            invariant
                d <= pad <= w,
                out@ == base + seq![kind_letter(e.file_type), 32u8] + spaces(pad - d),
            decreases w - pad,
        {
            out.push(32);
            pad += 1;
            assert(out@ =~= base + seq![kind_letter(e.file_type), 32u8] + spaces(pad - d));
        }
        push_decimal(&mut out, len);
        out.push(32);
        let p = e.path.as_str().as_bytes();
        let ghost mid = out@;
        let mut k: usize = 0;
        while k < p.len()
            invariant
                k <= p@.len(),
                out@ == mid + p@.subrange(0, k as int),
            decreases p@.len() - k,
        {
            out.push(p[k]);
            k += 1;
            assert(out@ =~= mid + p@.subrange(0, k as int));
        }
        assert(p@.subrange(0, k as int) =~= p@);
        out.push(10);
        assert(out@ =~= base + list_line(es[i as int], w as nat));
        assert(es.take(i + 1).drop_last() =~= es.take(i as int));
        i += 1;
        assert(out@ =~= list_lines(es.take(i as int), w as nat));
    }
    assert(es.take(i as int) =~= es);
    out
}

} // verus!
