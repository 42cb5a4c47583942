//! The hierarchical entity paths under which the sink addresses each
//! record — `{prefix}/scan_{index}/point` for the transform marker and
//! `{prefix}/scan_{index}/chunk_{chunk}` for a bulk chunk — and the
//! marker's text label.

use vstd::prelude::*;
use vstd::string::StrSliceExecFns;
use vstd::string::StringExecFns;

verus! {

/// The character of one decimal digit.
pub open spec fn digit_char(d: nat) -> char {
    ((48 + d) as u8) as char
}

/// The decimal digits of a number, most significant first.
pub open spec fn dec_digits(n: nat) -> Seq<char>
    decreases n,
{
    if n < 10 {
        seq![digit_char(n)]
    } else {
        dec_digits(n / 10).push(digit_char(n % 10))
    }
}

/// The digit characters of a reversed digit list (least significant
/// digit first), read back most significant first.
spec fn chars_of_rev(ds: Seq<u8>) -> Seq<char>
    decreases ds.len(),
{
    if ds.len() == 0 {
        Seq::empty()
    } else {
        seq![digit_char(ds.last() as nat)] + chars_of_rev(ds.drop_last())
    }
}

proof fn lemma_chars_of_rev_len(ds: Seq<u8>)
    ensures
        chars_of_rev(ds).len() == ds.len(),
    decreases ds.len(),
{
    if ds.len() > 0 {
        lemma_chars_of_rev_len(ds.drop_last());
    }
}

proof fn lemma_chars_of_rev_index(ds: Seq<u8>, i: int)
    requires
        0 <= i < ds.len(),
    ensures
        chars_of_rev(ds)[i] == digit_char(ds[ds.len() - 1 - i] as nat),
    decreases ds.len(),
{
    lemma_chars_of_rev_len(ds.drop_last());
    if i > 0 {
        lemma_chars_of_rev_index(ds.drop_last(), i - 1);
    }
}

/// A number printed in decimal.
pub fn format_usize(n: usize) -> (r: String)
    ensures
        r@ == dec_digits(n as nat),
{
    let mut digits: Vec<u8> = Vec::new();
    let mut m: usize = n;
    loop
        invariant_except_break
            forall|i: int| 0 <= i < digits@.len() ==> (#[trigger] digits@[i]) < 10,
            digits@.len() == 0 ==> m == n,
            digits@.len() > 0 ==> m != 0,
            digits@.len() > 0 && m > 0 ==> dec_digits(n as nat)
                == dec_digits(m as nat) + chars_of_rev(digits@),
            digits@.len() > 0 && m == 0 ==> dec_digits(n as nat) == chars_of_rev(digits@),
        ensures
            forall|i: int| 0 <= i < digits@.len() ==> (#[trigger] digits@[i]) < 10,
            dec_digits(n as nat) == chars_of_rev(digits@),
        decreases m,
    {
        let d = (m % 10) as u8;
        let ghost old_m = m as nat;
        let ghost old_digits = digits@;
        digits.push(d);
        m = m / 10;
        proof {
            assert(digits@.drop_last() =~= old_digits);
            assert(digits@.last() == d);
            assert(chars_of_rev(digits@) =~= seq![digit_char(d as nat)] + chars_of_rev(old_digits));
            if m > 0 {
                assert(dec_digits(old_m) == dec_digits(m as nat).push(digit_char(d as nat)));
                if old_digits.len() == 0 {
                    assert(dec_digits(n as nat)
                        =~= dec_digits(m as nat) + chars_of_rev(digits@));
                } else {
                    assert(dec_digits(m as nat).push(digit_char(d as nat)) + chars_of_rev(old_digits)
                        =~= dec_digits(m as nat) + chars_of_rev(digits@));
                }
            } else {
                assert(dec_digits(old_m) == seq![digit_char(d as nat)]);
                if old_digits.len() == 0 {
                    assert(dec_digits(n as nat) =~= chars_of_rev(digits@));
                } else {
                    assert(seq![digit_char(d as nat)] + chars_of_rev(old_digits)
                        =~= chars_of_rev(digits@));
                }
                assert(dec_digits(n as nat) == chars_of_rev(digits@));
            }
        }
        if m == 0 {
            break;
        }
    }
    let mut out = String::new();
    let mut k: usize = digits.len();
    proof {
        lemma_chars_of_rev_len(digits@);
    }
    while k > 0
        invariant
            k <= digits@.len(),
            forall|i: int| 0 <= i < digits@.len() ==> (#[trigger] digits@[i]) < 10,
            chars_of_rev(digits@).len() == digits@.len(),
            out@ == chars_of_rev(digits@).take(digits@.len() - k),
        decreases k,
    {
        let d = digits[k - 1];
        out.push((48 + d) as char);
        proof {
            lemma_chars_of_rev_index(digits@, digits@.len() - k);
            assert(chars_of_rev(digits@).take(digits@.len() - (k - 1))
                =~= chars_of_rev(digits@).take(digits@.len() - k).push(digit_char(d as nat)));
            assert(digit_char(d as nat) == (48 + d) as char);
        }
        k = k - 1;
    }
    proof {
        assert(chars_of_rev(digits@).take(digits@.len() as int) =~= chars_of_rev(digits@));
    }
    out
}

/// `{prefix}/scan_{index}`: the entity path of one scan.
pub open spec fn scan_path(prefix: Seq<char>, index: nat) -> Seq<char> {
    prefix + "/scan_"@ + dec_digits(index)
}

/// `{prefix}/scan_{index}/point`: where the transform marker goes.
pub open spec fn point_path(prefix: Seq<char>, index: nat) -> Seq<char> {
    scan_path(prefix, index) + "/point"@
}

/// `{prefix}/scan_{index}/chunk_{chunk}`: where one bulk chunk goes.
pub open spec fn chunk_path(prefix: Seq<char>, index: nat, chunk: nat) -> Seq<char> {
    scan_path(prefix, index) + "/chunk_"@ + dec_digits(chunk)
}

/// `Scan {index}`: the marker's text label.
pub open spec fn scan_label(index: nat) -> Seq<char> {
    "Scan "@ + dec_digits(index)
}

/// The entity path of the transform-marker record of one scan.
pub fn format_point_path(prefix: &str, index: usize) -> (r: String)
    ensures
        r@ == point_path(prefix@, index as nat),
{
    let mut out = String::from_str(prefix);
    out.append("/scan_");
    let num = format_usize(index);
    out.append(num.as_str());
    out.append("/point");
    out
}

/// The entity path of one bulk chunk of one scan.
pub fn format_chunk_path(prefix: &str, index: usize, chunk: usize) -> (r: String)
    ensures
        r@ == chunk_path(prefix@, index as nat, chunk as nat),
{
    let mut out = String::from_str(prefix);
    out.append("/scan_");
    let num = format_usize(index);
    out.append(num.as_str());
    out.append("/chunk_");
    let cnum = format_usize(chunk);
    out.append(cnum.as_str());
    out
}

/// The text label of the transform marker of one scan.
pub fn format_scan_label(index: usize) -> (r: String)
    ensures
        r@ == scan_label(index as nat),
{
    let mut out = String::from_str("Scan ");
    let num = format_usize(index);
    out.append(num.as_str());
    out
}

} // verus!
