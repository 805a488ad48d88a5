//! Byte-wise ordering of names and splitting of dotted keys.

use vstd::prelude::*;
use vstd::string::*;

verus! {

/// `a` comes before `b`, or equals it, in the lexicographic order of bytes:
/// the two agree on their first `k` bytes, and there `a` ends or holds the
/// smaller byte.
pub open spec fn bytes_le(a: Seq<u8>, b: Seq<u8>) -> bool {
    exists|k: int| bytes_le_at(a, b, k)
}

/// `k` is a position that shows `bytes_le(a, b)`.
pub open spec fn bytes_le_at(a: Seq<u8>, b: Seq<u8>, k: int) -> bool {
    &&& 0 <= k <= a.len()
    &&& k <= b.len()
    &&& forall|j: int| 0 <= j < k ==> a[j] == b[j]
    &&& (k == a.len() || (k < b.len() && a[k] < b[k]))
}

/// The order in which two names are listed: by the bytes of their UTF-8
/// encoding.
pub open spec fn name_le(a: Seq<char>, b: Seq<char>) -> bool {
    bytes_le(vstd::utf8::encode_utf8(a), vstd::utf8::encode_utf8(b))
}

/// Where two byte strings first differ, or where the shorter one ends.
pub open spec fn first_difference(a: Seq<u8>, b: Seq<u8>) -> int
    decreases a.len(),
{
    if a.len() == 0 || b.len() == 0 || a[0] != b[0] {
        0
    } else {
        1 + first_difference(a.drop_first(), b.drop_first())
    }
}

proof fn lemma_first_difference(a: Seq<u8>, b: Seq<u8>)
    ensures
        0 <= first_difference(a, b) <= a.len(),
        first_difference(a, b) <= b.len(),
        forall|j: int| 0 <= j < first_difference(a, b) ==> a[j] == b[j],
        first_difference(a, b) < a.len() && first_difference(a, b) < b.len() ==> a[first_difference(
            a,
            b,
        )] != b[first_difference(a, b)],
    decreases a.len(),
{
    if a.len() == 0 || b.len() == 0 || a[0] != b[0] {
    } else {
        let a1 = a.drop_first();
        let b1 = b.drop_first();
        lemma_first_difference(a1, b1);
        let d = first_difference(a1, b1);
        assert forall|j: int| 0 <= j < d + 1 implies a[j] == b[j] by {
            if j > 0 {
                assert(a1[j - 1] == a[j]);
                assert(b1[j - 1] == b[j]);
            }
        }
        if d < a1.len() && d < b1.len() {
            assert(a1[d] == a[d + 1]);
            assert(b1[d] == b[d + 1]);
        }
    }
}

/// Any two byte strings are comparable.
pub proof fn lemma_bytes_le_total(a: Seq<u8>, b: Seq<u8>)
    ensures
        bytes_le(a, b) || bytes_le(b, a),
{
    lemma_first_difference(a, b);
    let d = first_difference(a, b);
    if d == a.len() || (d < b.len() && a[d] < b[d]) {
        assert(bytes_le_at(a, b, d));
    } else {
        assert(bytes_le_at(b, a, d));
    }
}

/// The order is transitive.
pub proof fn lemma_bytes_le_transitive(a: Seq<u8>, b: Seq<u8>, c: Seq<u8>)
    requires
        bytes_le(a, b),
        bytes_le(b, c),
    ensures
        bytes_le(a, c),
{
    let k1 = choose|k: int| bytes_le_at(a, b, k);
    let k2 = choose|k: int| bytes_le_at(b, c, k);
    if k1 <= k2 {
        if k1 == a.len() {
            assert(bytes_le_at(a, c, k1));
        } else if k1 < k2 {
            assert(bytes_le_at(a, c, k1));
        } else {
            assert(k2 < c.len());
            assert(bytes_le_at(a, c, k1));
        }
    } else {
        assert(k2 < b.len());
        assert(bytes_le_at(a, c, k2));
    }
}

/// Whether `a` is listed before `b` or equals it.
pub fn str_le(a: &str, b: &str) -> (r: bool)
    ensures
        r == name_le(a@, b@),
{
    let x = a.as_bytes();
    let y = b.as_bytes();
    let n: usize = x.len();
    let m: usize = y.len();
    let mut i: usize = 0;
    while i < n && i < m && x[i] == y[i]
        invariant
            n == x@.len(),
            m == y@.len(),
            i <= n,
            i <= m,
            forall|j: int| 0 <= j < i ==> x@[j] == y@[j],
        decreases n - i,
    {
        i = i + 1;
    }
    let r = i == n || (i < m && x[i] < y[i]);
    proof {
        if r {
            assert(bytes_le_at(x@, y@, i as int));
        } else {
            assert forall|k: int| !bytes_le_at(x@, y@, k) by {
                if bytes_le_at(x@, y@, k) {
                    if k < i {
                        assert(x@[k] == y@[k]);
                    } else if k > i {
                        assert(x@[i as int] == y@[i as int]);
                    }
                }
            }
        }
    }
    r
}

/// The segments of a dotted key: the texts between its dots.  A key without
/// a dot is its own single segment, and two dots in a row enclose an empty
/// segment.
pub open spec fn segments(key: Seq<char>) -> Seq<Seq<char>>
    decreases key.len(),
{
    if key.len() == 0 {
        seq![Seq::empty()]
    } else {
        let before = segments(key.drop_last());
        if key.last() == '.' {
            before.push(Seq::empty())
        } else {
            before.drop_last().push(before.last().push(key.last()))
        }
    }
}

/// The segments joined by dots.
pub open spec fn dotted(parts: Seq<Seq<char>>) -> Seq<char>
    decreases parts.len(),
{
    if parts.len() == 0 {
        Seq::empty()
    } else if parts.len() == 1 {
        parts[0]
    } else {
        dotted(parts.drop_last()) + seq!['.'] + parts.last()
    }
}

/// A key has at least one segment, no segment holds a dot, and the segments
/// joined by dots give the key back.
pub proof fn lemma_segments(key: Seq<char>)
    ensures
        segments(key).len() >= 1,
        forall|i: int| 0 <= i < segments(key).len() ==> !(#[trigger] segments(key)[i]).contains('.'),
        dotted(segments(key)) == key,
    decreases key.len(),
{
    if key.len() == 0 {
        assert(dotted(segments(key)) =~= key);
    } else {
        let shorter = key.drop_last();
        lemma_segments(shorter);
        let before = segments(shorter);
        let parts = segments(key);
        if key.last() == '.' {
            assert(parts.drop_last() =~= before);
            assert(dotted(parts) =~= key);
        } else {
            let grown = before.last().push(key.last());
            assert forall|i: int| 0 <= i < parts.len() implies !(#[trigger] parts[i]).contains('.') by {
                if i < parts.len() - 1 {
                    assert(parts[i] == before[i]);
                } else {
                    if grown.contains('.') {
                        let j = choose|j: int| 0 <= j < grown.len() && grown[j] == '.';
                        assert(before.last()[j] == '.');
                    }
                }
            }
            if before.len() == 1 {
                assert(dotted(parts) =~= key);
            } else {
                assert(parts.drop_last() =~= before.drop_last());
                let head = dotted(before.drop_last()) + seq!['.'];
                assert(shorter == head + before.last());
                assert(dotted(parts) == head + grown);
                assert(key =~= shorter.push(key.last()));
                assert(head + grown =~= (head + before.last()).push(key.last()));
            }
        }
    }
}

/// Splits a key at its dots.
pub fn split_dots(key: &str) -> (out: Vec<String>)
    ensures
        out.deep_view() == segments(key@),
{
    let n: usize = key.unicode_len();
    let mut out: Vec<String> = Vec::new();
    let mut start: usize = 0;
    let mut i: usize = 0;
    proof {
        assert(key@.take(0) =~= Seq::<char>::empty());
        assert(segments(key@.take(0)) =~= out.deep_view().push(key@.subrange(0, 0)));
    }
    while i < n
        invariant
            n == key@.len(),
            start <= i <= n,
            segments(key@.take(i as int)) == out.deep_view().push(key@.subrange(start as int, i as int)),
        decreases n - i,
    {
        let ghost parts = out.deep_view();
        let ghost shorter = key@.take(i as int);
        let ghost longer = key@.take(i + 1);
        proof {
            assert(longer.drop_last() =~= shorter);
            assert(longer.last() == key@[i as int]);
        }
        if key.get_char(i) == '.' {
            let part = key.substring_char(start, i).to_owned();
            out.push(part);
            proof {
                assert(out.deep_view() =~= parts.push(key@.subrange(start as int, i as int)));
                assert(key@.subrange(i + 1, i + 1) =~= Seq::<char>::empty());
            }
            start = i + 1;
        } else {
            proof {
                let last = key@.subrange(start as int, i as int);
                assert(parts.push(last).drop_last() =~= parts);
                assert(last.push(key@[i as int]) =~= key@.subrange(start as int, i + 1));
            }
        }
        i = i + 1;
    }
    let ghost parts = out.deep_view();
    let part = key.substring_char(start, n).to_owned();
    out.push(part);
    proof {
        assert(key@.take(n as int) =~= key@);
        assert(out.deep_view() =~= parts.push(key@.subrange(start as int, n as int)));
    }
    out
}

/// Whether two texts hold the same characters.
pub fn same_text(a: &str, b: &str) -> (r: bool)
    ensures
        r == (a@ == b@),
{
    let x = a.to_owned();
    let y = b.to_owned();
    x == y
}

/// A copy of a list of texts.
pub fn copy_texts(v: &Vec<String>) -> (out: Vec<String>)
    ensures
        out.deep_view() == v.deep_view(),
{
    let mut out: Vec<String> = Vec::new();
    let mut i: usize = 0;
    while i < v.len()
        invariant
            i <= v.len(),
            out.len() == i,
            forall|j: int| 0 <= j < i ==> out[j]@ == v[j]@,
        decreases v.len() - i,
    {
        out.push(v[i].clone());
        i = i + 1;
    }
    assert(out.deep_view() =~= v.deep_view());
    out
}

/// A copy of an optional text.
pub fn copy_opt_text(v: &Option<String>) -> (out: Option<String>)
    ensures
        out.deep_view() == v.deep_view(),
{
    match v {
        Some(s) => Some(s.clone()),
        None => None,
    }
}

/// A copy of an optional list of texts.
pub fn copy_opt_texts(v: &Option<Vec<String>>) -> (out: Option<Vec<String>>)
    ensures
        out.deep_view() == v.deep_view(),
{
    match v {
        Some(s) => Some(copy_texts(s)),
        None => None,
    }
}

} // verus!
