//! Architecture names: equality and prefixes.

use vstd::prelude::*;
use vstd::string::*;
use vstd::utf8::*;

verus! {

/// Two names are equal exactly when their UTF-8 encodings are.
pub proof fn lemma_encoding_injective(a: Seq<char>, b: Seq<char>)
    ensures
        (encode_utf8(a) == encode_utf8(b)) == (a == b),
{
    encode_utf8_decode_utf8(a);
    encode_utf8_decode_utf8(b);
}

/// Whether two names are the same sequence of characters.
pub fn str_eq(a: &str, b: &str) -> (r: bool)
    ensures
        r == (a@ == b@),
{
    let x = a.as_bytes();
    let y = b.as_bytes();
    proof {
        lemma_encoding_injective(a@, b@);
    }
    if x.len() != y.len() {
        return false;
    }
    let mut i: usize = 0;
    while i < x.len()
        invariant
            i <= x.len(),
            x.len() == y.len(),
            x@ == encode_utf8(a@),
            y@ == encode_utf8(b@),
            (encode_utf8(a@) == encode_utf8(b@)) == (a@ == b@),
            forall|j: int| 0 <= j < i ==> x@[j] == y@[j],
        decreases x.len() - i,
    {
        if x[i] != y[i] {
            return false;
        }
        i += 1;
    }
    assert(x@ =~= y@);
    true
}

/// Whether `name` begins with the characters of `prefix`.
pub fn starts_with(name: &str, prefix: &str) -> (r: bool)
    ensures
        r == prefix@.is_prefix_of(name@),
{
    let n = name.unicode_len();
    let m = prefix.unicode_len();
    if m > n {
        return false;
    }
    let mut i: usize = 0;
    while i < m
        invariant
            i <= m <= n,
            n == name@.len(),
            m == prefix@.len(),
            forall|j: int| 0 <= j < i ==> name@[j] == prefix@[j],
        decreases m - i,
    {
        if name.get_char(i) != prefix.get_char(i) {
            return false;
        }
        i += 1;
    }
    assert(name@.subrange(0, m as int) =~= prefix@);
    true
}

/// `name` without `suffix` at its end, as often as it stands there.
pub open spec fn spec_trim_end(name: Seq<char>, suffix: Seq<char>) -> Seq<char>
    decreases name.len(),
{
    if suffix.len() > 0 && suffix.is_suffix_of(name) {
        spec_trim_end(name.subrange(0, name.len() - suffix.len()), suffix)
    } else {
        name
    }
}

/// Whether the characters of `suffix` stand before place `end` of `name`.
fn ends_with_at(name: &str, end: usize, suffix: &str, len: usize) -> (r: bool)
    requires
        len == suffix@.len(),
        len <= end <= name@.len(),
    ensures
        r == suffix@.is_suffix_of(name@.subrange(0, end as int)),
{
    let from = end - len;
    let mut j: usize = 0;
    while j < len
        invariant
            j <= len,
            len == suffix@.len(),
            from + len == end,
            end <= name@.len(),
            forall|k: int| 0 <= k < j ==> name@[from + k] == suffix@[k],
        decreases len - j,
    {
        if name.get_char(from + j) != suffix.get_char(j) {
            proof {
                let head = name@.subrange(0, end as int);
                assert(head.subrange(head.len() - len, head.len() as int)[j as int] == name@[from
                    + j]);
            }
            return false;
        }
        j += 1;
    }
    proof {
        let head = name@.subrange(0, end as int);
        assert(head.subrange(head.len() - len, head.len() as int) =~= suffix@);
    }
    true
}

/// `name` without `suffix` at its end, as often as it stands there.
pub fn trim_end(name: &str, suffix: &str) -> (r: String)
    ensures
        r@ == spec_trim_end(name@, suffix@),
{
    let len = suffix.unicode_len();
    let mut end = name.unicode_len();
    assert(name@.subrange(0, end as int) =~= name@);
    if len == 0 {
        return name.to_owned();
    }
    while end >= len && ends_with_at(name, end, suffix, len)
        invariant
            0 < len == suffix@.len(),
            end <= name@.len(),
            spec_trim_end(name@, suffix@) == spec_trim_end(
                name@.subrange(0, end as int),
                suffix@,
            ),
        decreases end,
    {
        proof {
            let head = name@.subrange(0, end as int);
            assert(head.subrange(0, head.len() - len) =~= name@.subrange(0, end - len));
        }
        end -= len;
    }
    name.substring_char(0, end).to_owned()
}

/// The lexicographic order of byte strings: the first byte that differs
/// decides, and a proper prefix comes first.
pub open spec fn bytes_lt(a: Seq<u8>, b: Seq<u8>) -> bool
    decreases a.len(),
{
    if b.len() == 0 {
        false
    } else if a.len() == 0 {
        true
    } else if a[0] != b[0] {
        a[0] < b[0]
    } else {
        bytes_lt(a.drop_first(), b.drop_first())
    }
}

/// The order of names: that of their UTF-8 encodings.
pub open spec fn name_lt(a: Seq<char>, b: Seq<char>) -> bool {
    bytes_lt(encode_utf8(a), encode_utf8(b))
}

/// No byte string comes before itself.
pub proof fn lemma_bytes_lt_irreflexive(a: Seq<u8>)
    ensures
        !bytes_lt(a, a),
    decreases a.len(),
{
    if a.len() > 0 {
        lemma_bytes_lt_irreflexive(a.drop_first());
    }
}

/// The order of byte strings is transitive.
pub proof fn lemma_bytes_lt_transitive(a: Seq<u8>, b: Seq<u8>, c: Seq<u8>)
    requires
        bytes_lt(a, b),
        bytes_lt(b, c),
    ensures
        bytes_lt(a, c),
    decreases a.len(),
{
    if a.len() > 0 && a[0] == b[0] && b[0] == c[0] {
        lemma_bytes_lt_transitive(a.drop_first(), b.drop_first(), c.drop_first());
    }
}

/// Of two different byte strings one comes before the other.
pub proof fn lemma_bytes_lt_total(a: Seq<u8>, b: Seq<u8>)
    ensures
        a == b || bytes_lt(a, b) || bytes_lt(b, a),
    decreases a.len(),
{
    if a.len() > 0 && b.len() > 0 && a[0] == b[0] {
        lemma_bytes_lt_total(a.drop_first(), b.drop_first());
        if a.drop_first() == b.drop_first() {
            assert(a =~= seq![a[0]] + a.drop_first());
            assert(b =~= seq![b[0]] + b.drop_first());
        }
    } else if a.len() == 0 && b.len() == 0 {
        assert(a =~= b);
    }
}

/// No name comes before itself.
pub proof fn lemma_name_lt_irreflexive(a: Seq<char>)
    ensures
        !name_lt(a, a),
{
    lemma_bytes_lt_irreflexive(encode_utf8(a));
}

/// The order of names is transitive.
pub proof fn lemma_name_lt_transitive(a: Seq<char>, b: Seq<char>, c: Seq<char>)
    requires
        name_lt(a, b),
        name_lt(b, c),
    ensures
        name_lt(a, c),
{
    lemma_bytes_lt_transitive(encode_utf8(a), encode_utf8(b), encode_utf8(c));
}

/// Of two different names one comes before the other.
pub proof fn lemma_name_lt_total(a: Seq<char>, b: Seq<char>)
    ensures
        a == b || name_lt(a, b) || name_lt(b, a),
{
    lemma_bytes_lt_total(encode_utf8(a), encode_utf8(b));
    lemma_encoding_injective(a, b);
}

/// Whether `a` comes before `b` in the order of names.
pub fn str_lt(a: &str, b: &str) -> (r: bool)
    ensures
        r == name_lt(a@, b@),
{
    let x = a.as_bytes();
    let y = b.as_bytes();
    let mut i: usize = 0;
    assert(x@.skip(0) =~= x@ && y@.skip(0) =~= y@);
    while i < x.len() && i < y.len()
        invariant
            i <= x.len(),
            i <= y.len(),
            x@ == encode_utf8(a@),
            y@ == encode_utf8(b@),
            bytes_lt(x@, y@) == bytes_lt(x@.skip(i as int), y@.skip(i as int)),
        decreases x.len() - i,
    {
        proof {
            assert(x@.skip(i as int).drop_first() =~= x@.skip(i + 1));
            assert(y@.skip(i as int).drop_first() =~= y@.skip(i + 1));
        }
        if x[i] != y[i] {
            return x[i] < y[i];
        }
        i += 1;
    }
    i < y.len()
}

} // verus!
