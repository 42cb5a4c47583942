//! The file-extension probe used to decide whether a path is for this
//! loader: the extension of the path's final component, ASCII-lowercased,
//! or the empty string when there is none. Final components are found as
//! the standard path routines find them: trailing separators and
//! trailing lone-dot components are ignored, and a final `..` component,
//! like a hidden file's leading dot, yields no extension.

use vstd::prelude::*;
use vstd::string::StrSliceExecFns;
use vstd::string::StringExecFns;

verus! {

/// ASCII upper-case letters map to lower case; everything else is kept.
pub open spec fn ascii_lower_char(c: char) -> char {
    if 65 <= c as u32 && c as u32 <= 90 {
        ((c as u32 + 32) as u8) as char
    } else {
        c
    }
}

pub open spec fn lower_seq(s: Seq<char>) -> Seq<char> {
    s.map_values(|c: char| ascii_lower_char(c))
}

/// The path with trailing separators and trailing lone-dot components
/// removed, as the standard path routines ignore them when naming the
/// final component.
pub open spec fn strip_tail(p: Seq<char>) -> Seq<char>
    decreases p.len(),
{
    if p.len() == 0 {
        p
    } else if p.last() == '/' {
        strip_tail(p.drop_last())
    } else if p.last() == '.' && (p.len() == 1 || p[p.len() - 2] == '/') {
        strip_tail(p.drop_last())
    } else {
        p
    }
}

/// Everything after the last separator, or the whole sequence if it
/// has none.
pub open spec fn last_component(p: Seq<char>) -> Seq<char>
    decreases p.len(),
{
    if p.len() == 0 {
        p
    } else if p.last() == '/' {
        Seq::empty()
    } else {
        last_component(p.drop_last()).push(p.last())
    }
}

/// Whether the name has a dot that is not its first character; only
/// then does it have an extension (a leading dot marks a hidden file —
/// or a `..` component — not an extension).
pub open spec fn has_interior_dot(n: Seq<char>) -> bool {
    exists|j: int| 1 <= j < n.len() && n[j] == '.'
}

/// Everything after the last dot (the whole name if it has no dot).
pub open spec fn after_last_dot(n: Seq<char>) -> Seq<char>
    decreases n.len(),
{
    if n.len() == 0 {
        n
    } else if n.last() == '.' {
        Seq::empty()
    } else {
        after_last_dot(n.drop_last()).push(n.last())
    }
}

pub open spec fn raw_extension(n: Seq<char>) -> Seq<char> {
    if has_interior_dot(n) {
        after_last_dot(n)
    } else {
        Seq::empty()
    }
}

/// The lowercased extension of the path's final component.
pub open spec fn spec_extension(p: Seq<char>) -> Seq<char> {
    lower_seq(raw_extension(last_component(strip_tail(p))))
}

/// Splitting off a separator-free suffix: the final component is the
/// final component of the rest, extended by that suffix.
proof fn lemma_last_component_decompose(p: Seq<char>, i: int)
    requires
        0 <= i <= p.len(),
        forall|k: int| i <= k < p.len() ==> (#[trigger] p[k]) != '/',
    ensures
        last_component(p) == last_component(p.take(i)) + p.skip(i),
    decreases p.len(),
{
    if i == p.len() {
        assert(p.take(i) =~= p);
        assert(last_component(p) + p.skip(i) =~= last_component(p));
    } else {
        assert(p[p.len() - 1] != '/');
        assert(p.drop_last().take(i) =~= p.take(i));
        lemma_last_component_decompose(p.drop_last(), i);
        assert(p.drop_last().skip(i) =~= p.skip(i).drop_last());
        assert((last_component(p.take(i)) + p.skip(i).drop_last()).push(p.last())
            =~= last_component(p.take(i)) + p.skip(i));
    }
}

/// The same decomposition for the last dot.
proof fn lemma_after_last_dot_decompose(n: Seq<char>, i: int)
    requires
        0 <= i <= n.len(),
        forall|k: int| i <= k < n.len() ==> (#[trigger] n[k]) != '.',
    ensures
        after_last_dot(n) == after_last_dot(n.take(i)) + n.skip(i),
    decreases n.len(),
{
    if i == n.len() {
        assert(n.take(i) =~= n);
        assert(after_last_dot(n) + n.skip(i) =~= after_last_dot(n));
    } else {
        assert(n[n.len() - 1] != '.');
        assert(n.drop_last().take(i) =~= n.take(i));
        lemma_after_last_dot_decompose(n.drop_last(), i);
        assert(n.drop_last().skip(i) =~= n.skip(i).drop_last());
        assert((after_last_dot(n.take(i)) + n.skip(i).drop_last()).push(n.last())
            =~= after_last_dot(n.take(i)) + n.skip(i));
    }
}

/// The extension of the path's final component, ASCII-lowercased; the
/// empty string when that component has no extension.
#[verifier::rlimit(50)]
pub fn extension(path: &str) -> (r: String)
    ensures
        r@ == spec_extension(path@),
{
    let n = path.unicode_len();
    let mut end: usize = n;
    proof {
        assert(path@.take(n as int) =~= path@);
    }
    while end > 0 && (path.get_char(end - 1) == '/'
        || (path.get_char(end - 1) == '.' && (end == 1 || path.get_char(end - 2) == '/')))
        invariant
            end <= n,
            n == path@.len(),
            strip_tail(path@) == strip_tail(path@.take(end as int)),
        decreases end,
    {
        proof {
            let cur = path@.take(end as int);
            assert(cur.drop_last() =~= path@.take(end - 1));
            assert(cur.last() == path@[end - 1]);
            if end >= 2 {
                assert(cur[end - 2] == path@[end - 2]);
            }
        }
        end = end - 1;
    }
    proof {
        let cur = path@.take(end as int);
        if end > 0 {
            assert(cur.last() == path@[end - 1]);
            if end >= 2 {
                assert(cur[end - 2] == path@[end - 2]);
            }
        }
        assert(strip_tail(path@) =~= cur);
    }
    let ghost q = path@.take(end as int);
    let mut b: usize = end;
    while b > 0 && path.get_char(b - 1) != '/'
        invariant
            b <= end <= n,
            n == path@.len(),
            forall|k: int| b <= k < end ==> (#[trigger] path@[k]) != '/',
        decreases b,
    {
        b = b - 1;
    }
    proof {
        assert forall|k: int| b <= k < q.len() implies (#[trigger] q[k]) != '/' by {
            assert(q[k] == path@[k]);
        }
        lemma_last_component_decompose(q, b as int);
        if b > 0 {
            assert(q.take(b as int).last() == path@[b - 1]);
        }
        assert(last_component(q.take(b as int)) =~= Seq::<char>::empty());
        assert(last_component(q) =~= q.skip(b as int));
    }
    let ghost name = q.skip(b as int);
    let mut e: usize = end;
    while e > b && path.get_char(e - 1) != '.'
        invariant
            b <= e <= end <= n,
            n == path@.len(),
            forall|k: int| e <= k < end ==> (#[trigger] path@[k]) != '.',
        decreases e,
    {
        e = e - 1;
    }
    let mut out = String::new();
    if e - b <= 1 {
        // No dot in the name, or its only dot leads a hidden file:
        // there is no extension.
        proof {
            assert forall|j: int| 1 <= j < name.len() implies name[j] != '.' by {
                assert(name[j] == path@[b + j]);
            }
            assert(!has_interior_dot(name));
            assert(lower_seq(Seq::<char>::empty()) =~= Seq::<char>::empty());
        }
        return out;
    }
    proof {
        assert(path@[e - 1] == '.');
        assert(name[e - 1 - b] == path@[e - 1]);
        assert(has_interior_dot(name));
        assert forall|k: int| e - b <= k < name.len() implies (#[trigger] name[k]) != '.' by {
            assert(name[k] == path@[b + k]);
        }
        lemma_after_last_dot_decompose(name, e - b);
        assert(name.take(e - b).last() == name[e - 1 - b]);
        assert(after_last_dot(name.take(e - b)) =~= Seq::<char>::empty());
        assert(after_last_dot(name) =~= name.skip(e - b));
        assert(name.skip(e - b) =~= path@.subrange(e as int, end as int));
    }
    let mut k: usize = e;
    while k < end
        invariant
            e <= k <= end <= n,
            n == path@.len(),
            out@ == lower_seq(path@.subrange(e as int, k as int)),
        decreases end - k,
    {
        let c = lower_char(path.get_char(k));
        out.push(c);
        proof {
            assert(lower_seq(path@.subrange(e as int, k + 1))
                =~= lower_seq(path@.subrange(e as int, k as int)).push(ascii_lower_char(path@[k as int])));
        }
        k = k + 1;
    }
    proof {
        assert(raw_extension(last_component(q)) == path@.subrange(e as int, end as int));
    }
    out
}

/// ASCII lowercasing of one character.
fn lower_char(c: char) -> (r: char)
    ensures
        r == ascii_lower_char(c),
{
    let u = c as u32;
    if 65 <= u && u <= 90 {
        ((u + 32) as u8) as char
    } else {
        c
    }
}

} // verus!
