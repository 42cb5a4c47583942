//! The optional allow-list of scan indices: parsed from one
//! comma-separated configuration string, with malformed entries
//! silently ignored.

use vstd::prelude::*;
use vstd::string::StrSliceExecFns;

verus! {

broadcast use vstd::seq_lib::lemma_seq_contains_after_push;

/// Whitespace stripped from the ends of each entry: the characters
/// with the Unicode White_Space property, exactly those the standard
/// trim removes.
pub open spec fn is_space(c: char) -> bool {
    let u = c as u32;
    ||| 9 <= u <= 13
    ||| u == 32
    ||| u == 0x85
    ||| u == 0xA0
    ||| u == 0x1680
    ||| 0x2000 <= u <= 0x200A
    ||| u == 0x2028
    ||| u == 0x2029
    ||| u == 0x202F
    ||| u == 0x205F
    ||| u == 0x3000
}

/// An entry with leading and trailing whitespace removed.
pub open spec fn trimmed(e: Seq<char>) -> Seq<char>
    decreases e.len(),
{
    if e.len() == 0 {
        e
    } else if is_space(e.first()) {
        trimmed(e.drop_first())
    } else if is_space(e.last()) {
        trimmed(e.drop_last())
    } else {
        e
    }
}

pub open spec fn is_digit(c: char) -> bool {
    48 <= c as u32 && c as u32 <= 57
}

pub open spec fn digit_value(c: char) -> nat {
    (c as u32 - 48) as nat
}

pub open spec fn all_digits(s: Seq<char>) -> bool {
    forall|k: int| 0 <= k < s.len() ==> is_digit(#[trigger] s[k])
}

/// The number written by a sequence of decimal digits, most significant
/// first.
pub open spec fn digits_value(s: Seq<char>) -> nat
    decreases s.len(),
{
    if s.len() == 0 {
        0
    } else {
        digits_value(s.drop_last()) * 10 + digit_value(s.last())
    }
}

/// A digit string is worth at least any of its prefixes.
pub proof fn lemma_digits_prefix_le(s: Seq<char>, i: int)
    requires
        0 <= i <= s.len(),
    ensures
        digits_value(s.take(i)) <= digits_value(s),
    decreases s.len(),
{
    if i == s.len() {
        assert(s.take(i) =~= s);
    } else {
        assert(s.take(i) =~= s.drop_last().take(i));
        lemma_digits_prefix_le(s.drop_last(), i);
    }
}

/// The numeric value of one entry, if it is well formed: optional
/// leading '+', then at least one decimal digit and nothing else, and a
/// value that fits in usize. Anything else is ignored.
pub open spec fn entry_value(e: Seq<char>) -> Option<usize> {
    let t = trimmed(e);
    let d = if t.len() > 0 && t.first() == '+' {
        t.drop_first()
    } else {
        t
    };
    if d.len() > 0 && all_digits(d) && digits_value(d) <= usize::MAX {
        Some(digits_value(d) as usize)
    } else {
        None
    }
}

/// The comma-separated entries of a string, in order. As with the
/// standard splitter, an empty string is one empty entry, and each
/// comma separates two (possibly empty) entries.
pub open spec fn split_commas(s: Seq<char>) -> Seq<Seq<char>>
    decreases s.len(),
{
    if s.len() == 0 {
        seq![s]
    } else if s.first() == ',' {
        seq![Seq::<char>::empty()] + split_commas(s.drop_first())
    } else {
        let rest = split_commas(s.drop_first());
        seq![seq![s.first()] + rest.first()] + rest.drop_first()
    }
}

/// A string without commas is a single entry.
pub proof fn lemma_split_no_comma(t: Seq<char>)
    requires
        forall|k: int| 0 <= k < t.len() ==> (#[trigger] t[k]) != ',',
    ensures
        split_commas(t) == seq![t],
    decreases t.len(),
{
    if t.len() > 0 {
        assert(t[0] != ',');
        assert forall|k: int| 0 <= k < t.drop_first().len() implies (#[trigger] t.drop_first()[k]) != ',' by {
            assert(t.drop_first()[k] == t[k + 1]);
        }
        lemma_split_no_comma(t.drop_first());
        assert(seq![t.first()] + t.drop_first() =~= t);
        assert(split_commas(t) =~= seq![t]);
    }
}

/// Splitting at the first comma: the entry before it, then the split of
/// what follows it.
pub proof fn lemma_split_at_comma(t: Seq<char>, k: int)
    requires
        0 <= k < t.len(),
        t[k] == ',',
        forall|i: int| 0 <= i < k ==> (#[trigger] t[i]) != ',',
    ensures
        split_commas(t) == seq![t.take(k)] + split_commas(t.skip(k + 1)),
    decreases k,
{
    if k == 0 {
        assert(t.first() == ',');
        assert(t.take(0) =~= Seq::<char>::empty());
        assert(t.skip(1) =~= t.drop_first());
        assert(split_commas(t) =~= seq![t.take(0)] + split_commas(t.skip(1)));
    } else {
        assert(t[0] != ',');
        let u = t.drop_first();
        assert forall|i: int| 0 <= i < k - 1 implies (#[trigger] u[i]) != ',' by {
            assert(u[i] == t[i + 1]);
        }
        assert(u[k - 1] == t[k]);
        lemma_split_at_comma(u, k - 1);
        assert(seq![t.first()] + u.take(k - 1) =~= t.take(k));
        assert(u.skip(k) =~= t.skip(k + 1));
        assert(split_commas(t) =~= seq![t.take(k)] + split_commas(t.skip(k + 1)));
    }
}

/// Whether some entry of the comma-separated string names the value.
pub open spec fn list_allows(s: Seq<char>, v: usize) -> bool {
    exists|k: int| 0 <= k < split_commas(s).len() && entry_value(#[trigger] split_commas(s)[k]) == Some(v)
}

/// The set of scan indices that the configuration permits for export.
pub struct AllowList {
    items: Vec<usize>,
}

impl AllowList {
    pub closed spec fn spec_allows(self, v: usize) -> bool {
        self.items@.contains(v)
    }

    /// An allow-list holding exactly the given indices.
    pub fn from_indices(items: Vec<usize>) -> (r: AllowList)
        ensures
            forall|v: usize| r.spec_allows(v) <==> items@.contains(v),
    {
        AllowList { items }
    }

    /// Whether the given scan index is listed.
    pub fn allows(&self, v: usize) -> (r: bool)
        ensures
            r == self.spec_allows(v),
    {
        let mut k: usize = 0;
        while k < self.items.len()
            invariant
                k <= self.items@.len(),
                forall|j: int| 0 <= j < k ==> (#[trigger] self.items@[j]) != v,
            decreases self.items@.len() - k,
        {
            if self.items[k] == v {
                return true;
            }
            k = k + 1;
        }
        false
    }
}

/// Parse the configured allow-list: the value is split at commas, each
/// entry is trimmed and read as a non-negative integer, and malformed
/// entries are silently ignored.
pub fn parse_allow_list(s: &str) -> (r: AllowList)
    ensures
        forall|v: usize| r.spec_allows(v) <==> list_allows(s@, v),
{
    let n = s.unicode_len();
    let mut items: Vec<usize> = Vec::new();
    let mut start: usize = 0;
    let ghost mut done: Seq<Seq<char>> = Seq::empty();
    proof {
        assert(s@.skip(0) =~= s@);
    }
    loop
        invariant_except_break
            start <= n,
            n == s@.len(),
            split_commas(s@) == done + split_commas(s@.skip(start as int)),
            forall|v: usize| items@.contains(v) <==> (exists|k: int|
                0 <= k < done.len() && entry_value(#[trigger] done[k]) == Some(v)),
        ensures
            split_commas(s@) == done,
            forall|v: usize| items@.contains(v) <==> (exists|k: int|
                0 <= k < done.len() && entry_value(#[trigger] done[k]) == Some(v)),
        decreases n - start,
    {
        let mut j: usize = start;
        while j < n && s.get_char(j) != ','
            invariant
                start <= j <= n,
                n == s@.len(),
                forall|k: int| start <= k < j ==> (#[trigger] s@[k]) != ',',
            decreases n - j,
        {
            j = j + 1;
        }
        let ghost seg = s@.subrange(start as int, j as int);
        let ghost old_done = done;
        proof {
            let t = s@.skip(start as int);
            done = done.push(seg);
            assert(done =~= old_done + seq![seg]);
            if j == n {
                assert forall|k: int| 0 <= k < t.len() implies (#[trigger] t[k]) != ',' by {
                    assert(t[k] == s@[k + start]);
                }
                lemma_split_no_comma(t);
                assert(t =~= seg);
                assert(old_done + split_commas(t) =~= done);
            } else {
                assert(s@[j as int] == ',');
                assert forall|i2: int| 0 <= i2 < j - start implies (#[trigger] t[i2]) != ',' by {
                    assert(t[i2] == s@[i2 + start]);
                }
                assert(t[j - start] == s@[j as int]);
                lemma_split_at_comma(t, j - start);
                assert(t.take(j - start) =~= seg);
                assert(t.skip(j - start + 1) =~= s@.skip(j + 1));
                assert(old_done + (seq![seg] + split_commas(s@.skip(j + 1)))
                    =~= done + split_commas(s@.skip(j + 1)));
            }
        }
        let value = parse_entry(s, start, j);
        let ghost old_items = items@;
        match value {
            Some(v) => {
                let mut have = false;
                let mut k: usize = 0;
                while k < items.len()
                    invariant
                        k <= items@.len(),
                        items@ == old_items,
                        have <==> (exists|i2: int| 0 <= i2 < k && items@[i2] == v),
                    decreases items@.len() - k,
                {
                    if items[k] == v {
                        have = true;
                    }
                    k = k + 1;
                }
                proof {
                    assert(have <==> items@.contains(v));
                }
                if !have {
                    items.push(v);
                }
            }
            None => {}
        }
        proof {
            assert(entry_value(seg) == value);
            assert forall|v2: usize| items@.contains(v2) implies (exists|k: int|
                0 <= k < done.len() && entry_value(#[trigger] done[k]) == Some(v2)) by {
                if old_items.contains(v2) {
                    let k = choose|k: int| 0 <= k < old_done.len()
                        && entry_value(#[trigger] old_done[k]) == Some(v2);
                    assert(done[k] == old_done[k]);
                    assert(entry_value(done[k]) == Some(v2));
                } else {
                    assert(value == Some(v2));
                    assert(done[done.len() - 1] == seg);
                    assert(entry_value(done[done.len() - 1]) == Some(v2));
                }
            }
            assert forall|v2: usize| (exists|k: int|
                0 <= k < done.len() && entry_value(#[trigger] done[k]) == Some(v2))
                implies items@.contains(v2) by {
                let k = choose|k: int| 0 <= k < done.len()
                    && entry_value(#[trigger] done[k]) == Some(v2);
                if k < old_done.len() {
                    assert(old_done[k] == done[k]);
                    assert(old_items.contains(v2));
                } else {
                    assert(done[k] == seg);
                    assert(value == Some(v2));
                }
            }
        }
        if j == n {
            break;
        }
        start = j + 1;
    }
    proof {
        assert forall|v: usize| items@.contains(v) <==> list_allows(s@, v) by {
            if items@.contains(v) {
                let k = choose|k: int| 0 <= k < done.len()
                    && entry_value(#[trigger] done[k]) == Some(v);
                assert(entry_value(split_commas(s@)[k]) == Some(v));
            }
            if list_allows(s@, v) {
                let k = choose|k: int| 0 <= k < split_commas(s@).len()
                    && entry_value(#[trigger] split_commas(s@)[k]) == Some(v);
                assert(entry_value(done[k]) == Some(v));
            }
        }
    }
    AllowList { items }
}

/// Read the entry between the given bounds: trim whitespace, allow one
/// leading '+', then decimal digits; anything else, or a value that
/// does not fit, yields nothing.
fn parse_entry(s: &str, start: usize, end: usize) -> (r: Option<usize>)
    requires
        start <= end <= s@.len(),
    ensures
        r == entry_value(s@.subrange(start as int, end as int)),
{
    let ghost seg = s@.subrange(start as int, end as int);
    let mut a: usize = start;
    while a < end && is_space_char(s.get_char(a))
        invariant
            start <= a <= end <= s@.len(),
            trimmed(seg) == trimmed(s@.subrange(a as int, end as int)),
        decreases end - a,
    {
        proof {
            let cur = s@.subrange(a as int, end as int);
            assert(cur.first() == s@[a as int]);
            assert(cur.drop_first() =~= s@.subrange(a + 1, end as int));
        }
        a = a + 1;
    }
    let mut b: usize = end;
    while b > a && is_space_char(s.get_char(b - 1))
        invariant
            start <= a <= b <= end <= s@.len(),
            trimmed(seg) == trimmed(s@.subrange(a as int, b as int)),
            a == end || !is_space(s@[a as int]),
        decreases b - a,
    {
        proof {
            let cur = s@.subrange(a as int, b as int);
            assert(cur.first() == s@[a as int]);
            assert(cur.last() == s@[b - 1]);
            assert(cur.drop_last() =~= s@.subrange(a as int, b - 1));
        }
        b = b - 1;
    }
    proof {
        let cur = s@.subrange(a as int, b as int);
        if a < b {
            assert(cur.first() == s@[a as int]);
            assert(cur.last() == s@[b - 1]);
        }
        assert(trimmed(cur) =~= cur);
    }
    let d_start: usize = if a < b && s.get_char(a) == '+' {
        a + 1
    } else {
        a
    };
    proof {
        let t = s@.subrange(a as int, b as int);
        if d_start > a {
            assert(t.drop_first() =~= s@.subrange(d_start as int, b as int));
        }
    }
    let ghost digs = s@.subrange(d_start as int, b as int);
    if d_start == b {
        return None;
    }
    let mut acc: usize = 0;
    let mut ok = true;
    let mut k: usize = d_start;
    while k < b
        invariant
            d_start <= k <= b <= s@.len(),
            digs == s@.subrange(d_start as int, b as int),
            digs.len() == b - d_start,
            ok ==> all_digits(digs.take(k - d_start)),
            ok ==> acc == digits_value(digs.take(k - d_start)),
            !ok ==> !(all_digits(digs) && digits_value(digs) <= usize::MAX),
        decreases b - k,
    {
        let c = s.get_char(k);
        proof {
            assert(digs[k - d_start] == s@[k as int]);
            assert(digs.take(k - d_start + 1).drop_last() =~= digs.take(k - d_start));
            assert(digs.take(k - d_start + 1).last() == digs[k - d_start]);
        }
        if ok {
            let u = c as u32;
            if u < 48 || u > 57 {
                ok = false;
            } else {
                let dig = (u - 48) as usize;
                if acc > (usize::MAX - dig) / 10 {
                    proof {
                        vstd::arithmetic::div_mod::lemma_fundamental_div_mod((usize::MAX - dig) as int, 10);
                        assert(digits_value(digs.take(k - d_start + 1)) > usize::MAX);
                        lemma_digits_prefix_le(digs, k - d_start + 1);
                    }
                    ok = false;
                } else {
                    proof {
                        vstd::arithmetic::div_mod::lemma_fundamental_div_mod((usize::MAX - dig) as int, 10);
                    }
                    acc = acc * 10 + dig;
                }
            }
        }
        k = k + 1;
    }
    proof {
        assert(digs.take(b - d_start) =~= digs);
    }
    if ok {
        Some(acc)
    } else {
        None
    }
}

/// Whitespace as `is_space` defines it.
fn is_space_char(c: char) -> (r: bool)
    ensures
        r == is_space(c),
{
    let u = c as u32;
    (9 <= u && u <= 13) || u == 32 || u == 0x85 || u == 0xA0 || u == 0x1680
        || (0x2000 <= u && u <= 0x200A) || u == 0x2028 || u == 0x2029
        || u == 0x202F || u == 0x205F || u == 0x3000
}

} // verus!
