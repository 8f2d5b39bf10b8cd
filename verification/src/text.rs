//! Identifiers and capability tags: equality, lexical order, containment.

use vstd::prelude::*;
use vstd::string::StringSliceAdditionalSpecFns;

verus! {

/// The UTF-8 bytes of a text, by which identifiers are ordered.
pub open spec fn bytes_of(s: Seq<char>) -> Seq<u8> {
    vstd::utf8::encode_utf8(s)
}

/// Lexical order on byte strings, decided from position `i` on, given that
/// both agree before `i`.
pub open spec fn lex_less_from(a: Seq<u8>, b: Seq<u8>, i: int) -> bool
    decreases a.len() - i,
{
    if i < 0 {
        false
    } else if i >= a.len() {
        i < b.len()
    } else if i >= b.len() {
        false
    } else if a[i] != b[i] {
        a[i] < b[i]
    } else {
        lex_less_from(a, b, i + 1)
    }
}

/// Strict lexical order on byte strings: a proper prefix comes first,
/// otherwise the first differing byte decides.
pub open spec fn lex_less(a: Seq<u8>, b: Seq<u8>) -> bool {
    lex_less_from(a, b, 0)
}

/// Strict lexical order on identifiers.
pub open spec fn id_less(a: Seq<char>, b: Seq<char>) -> bool {
    lex_less(bytes_of(a), bytes_of(b))
}

/// Two byte strings that agree before `i` and are unordered from `i` on are
/// equal.
pub proof fn lemma_lex_total_from(a: Seq<u8>, b: Seq<u8>, i: int)
    requires
        0 <= i,
        i <= a.len(),
        i <= b.len(),
        forall|k: int| 0 <= k < i ==> a[k] == b[k],
        !lex_less_from(a, b, i),
        !lex_less_from(b, a, i),
    ensures
        a =~= b,
    decreases a.len() - i,
{
    if i < a.len() && i < b.len() {
        lemma_lex_total_from(a, b, i + 1);
    }
}

/// The order is irreflexive from any position.
pub proof fn lemma_lex_irreflexive_from(a: Seq<u8>, i: int)
    requires
        0 <= i,
    ensures
        !lex_less_from(a, a, i),
    decreases a.len() - i,
{
    if i < a.len() {
        lemma_lex_irreflexive_from(a, i + 1);
    }
}

/// The order is transitive from any position.
pub proof fn lemma_lex_transitive_from(a: Seq<u8>, b: Seq<u8>, c: Seq<u8>, i: int)
    requires
        0 <= i,
        lex_less_from(a, b, i),
        lex_less_from(b, c, i),
    ensures
        lex_less_from(a, c, i),
    decreases a.len() - i,
{
    if i < a.len() && i < b.len() && i < c.len() {
        if a[i] == b[i] && b[i] == c[i] {
            lemma_lex_transitive_from(a, b, c, i + 1);
        }
    }
}

/// Distinct identifiers are strictly ordered one way or the other, and never
/// both ways.
pub proof fn lemma_id_order_total(a: Seq<char>, b: Seq<char>)
    ensures
        a != b ==> (id_less(a, b) || id_less(b, a)),
        !(id_less(a, b) && id_less(b, a)),
        !id_less(a, a),
{
    lemma_lex_irreflexive_from(bytes_of(a), 0);
    if id_less(a, b) && id_less(b, a) {
        lemma_lex_transitive_from(bytes_of(a), bytes_of(b), bytes_of(a), 0);
    }
    if !id_less(a, b) && !id_less(b, a) {
        lemma_lex_total_from(bytes_of(a), bytes_of(b), 0);
        vstd::utf8::encode_utf8_decode_utf8(a);
        vstd::utf8::encode_utf8_decode_utf8(b);
    }
}

/// The order on identifiers is transitive.
pub proof fn lemma_id_order_transitive(a: Seq<char>, b: Seq<char>, c: Seq<char>)
    requires
        id_less(a, b),
        id_less(b, c),
    ensures
        id_less(a, c),
{
    lemma_lex_transitive_from(bytes_of(a), bytes_of(b), bytes_of(c), 0);
}

/// Whether `a` comes strictly before `b` in lexical order.
pub fn precedes(a: &str, b: &str) -> (r: bool)
    ensures
        r == id_less(a@, b@),
{
    let x = a.as_bytes();
    let y = b.as_bytes();
    let mut i: usize = 0;
    while i < x.len() && i < y.len()
        invariant
            i <= x@.len(),
            i <= y@.len(),
            x@ == bytes_of(a@),
            y@ == bytes_of(b@),
            lex_less(x@, y@) == lex_less_from(x@, y@, i as int),
        decreases x@.len() - i,
    {
        if x[i] != y[i] {
            return x[i] < y[i];
        }
        i += 1;
    }
    i < y.len()
}

/// Whether two texts are the same.
pub fn same_text(a: &str, b: &str) -> (r: bool)
    ensures
        r == (a@ == b@),
{
    proof {
        lemma_id_order_total(a@, b@);
    }
    !precedes(a, b) && !precedes(b, a)
}

/// The views of a list of tags.
pub open spec fn tags_view(tags: Seq<String>) -> Seq<Seq<char>> {
    tags.map_values(|t: String| t@)
}

/// Whether `tag` is one of `tags`.
pub fn has_tag(tags: &Vec<String>, tag: &String) -> (r: bool)
    ensures
        r == tags_view(tags@).contains(tag@),
{
    let mut i: usize = 0;
    while i < tags.len()
        invariant
            i <= tags.len(),
            forall|k: int| 0 <= k < i ==> tags_view(tags@)[k] != tag@,
        decreases tags.len() - i,
    {
        if tags[i] == *tag {
            assert(tags_view(tags@)[i as int] == tag@);
            return true;
        }
        i += 1;
    }
    false
}

/// Every required tag is among the offered ones.
pub open spec fn covers(offered: Seq<Seq<char>>, required: Seq<Seq<char>>) -> bool {
    forall|k: int| 0 <= k < required.len() ==> offered.contains(#[trigger] required[k])
}

/// Whether every tag of `required` is among `offered`.
pub fn covers_all(offered: &Vec<String>, required: &Vec<String>) -> (r: bool)
    ensures
        r == covers(tags_view(offered@), tags_view(required@)),
{
    let mut i: usize = 0;
    while i < required.len()
        invariant
            i <= required.len(),
            forall|k: int|
                0 <= k < i ==> tags_view(offered@).contains(#[trigger] tags_view(required@)[k]),
        decreases required.len() - i,
    {
        if !has_tag(offered, &required[i]) {
            assert(tags_view(required@)[i as int] == required@[i as int]@);
            return false;
        }
        assert(tags_view(required@)[i as int] == required@[i as int]@);
        i += 1;
    }
    true
}

/// A copy of a list of tags.
pub fn copy_tags(tags: &Vec<String>) -> (r: Vec<String>)
    ensures
        r@ == tags@,
{
    let mut out: Vec<String> = Vec::new();
    let mut i: usize = 0;
    while i < tags.len()
        invariant
            i <= tags.len(),
            out@ == tags@.take(i as int),
        decreases tags.len() - i,
    {
        out.push(tags[i].clone());
        assert(out@ =~= tags@.take(i + 1));
        i += 1;
    }
    assert(tags@.take(tags.len() as int) =~= tags@);
    out
}

} // verus!
