//! File-name conventions: ordering prefixes, category tags, the order of
//! names and the few name tests the tree walk needs.
//!
//! Every function here works on the characters of a name. The specifications
//! are stated over `Seq<char>`, the view of `str` and `String`.

use vstd::prelude::*;
use vstd::string::*;

verus! {

/// The characters of `s`, in order.
pub fn chars_of(s: &str) -> (r: Vec<char>)
    ensures
        r@ == s@,
{
    let mut v: Vec<char> = Vec::new();
    for c in it: s.chars()
        invariant
            v@ == it.seq().take(it.index() as int),
            it.seq() == s@,
    {
        v.push(c);
    }
    v
}

// ---------------------------------------------------------------------------
// Ordering prefix
// ---------------------------------------------------------------------------

/// A character of an ordering prefix: an ASCII digit or a dot.
pub open spec fn is_ordering_char(c: char) -> bool {
    ('0' <= c && c <= '9') || c == '.'
}

/// The length of the longest prefix of `s` made of ordering characters.
pub open spec fn ordering_prefix_len(s: Seq<char>) -> nat
    decreases s.len(),
{
    if s.len() > 0 && is_ordering_char(s[0]) {
        1 + ordering_prefix_len(s.drop_first())
    } else {
        0
    }
}

/// `s` from its first character that is neither a digit nor a dot. A name
/// made of digits and dots alone gives the empty sequence.
pub open spec fn trim_number_spec(s: Seq<char>) -> Seq<char> {
    s.skip(ordering_prefix_len(s) as int)
}

/// `k` splits `s` into a run of ordering characters and a rest that does not
/// start with one.
pub open spec fn is_ordering_prefix_end(s: Seq<char>, k: int) -> bool {
    &&& 0 <= k <= s.len()
    &&& forall|i: int| 0 <= i < k ==> is_ordering_char(#[trigger] s[i])
    &&& k < s.len() ==> !is_ordering_char(s[k])
}

/// The ordering prefix ends where the first other character stands, and
/// nowhere else.
pub proof fn lemma_ordering_prefix_len(s: Seq<char>, k: int)
    ensures
        is_ordering_prefix_end(s, k) <==> k == ordering_prefix_len(s),
    decreases s.len(),
{
    if s.len() > 0 && is_ordering_char(s[0]) {
        let t = s.drop_first();
        lemma_ordering_prefix_len(t, k - 1);
        if is_ordering_prefix_end(s, k) {
            assert(k >= 1) by {
                if k == 0 {
                    assert(!is_ordering_char(s[0]));
                }
            }
            assert forall|i: int| 0 <= i < k - 1 implies is_ordering_char(#[trigger] t[i]) by {
                assert(t[i] == s[i + 1]);
            }
            assert(is_ordering_prefix_end(t, k - 1));
        }
        if k == ordering_prefix_len(s) {
            assert(is_ordering_prefix_end(t, k - 1));
            assert forall|i: int| 0 <= i < k implies is_ordering_char(#[trigger] s[i]) by {
                if i > 0 {
                    assert(s[i] == t[i - 1]);
                }
            }
            assert(k < s.len() ==> s[k] == t[k - 1]);
        }
    } else {
        if is_ordering_prefix_end(s, k) && k > 0 {
            assert(is_ordering_char(s[0]));
        }
    }
}

/// Whether `c` is an ASCII digit or a dot.
pub fn is_ordering(c: char) -> (r: bool)
    ensures
        r == is_ordering_char(c),
{
    (c >= '0' && c <= '9') || c == '.'
}

/// Strips the ordering prefix, the leading digits and dots, from a name.
pub fn trim_number(s: &str) -> (r: &str)
    ensures
        r@ == trim_number_spec(s@),
{
    let chars = chars_of(s);
    let len = chars.len();
    let mut index: usize = 0;
    while index < len && is_ordering(chars[index])
        invariant
            chars@ == s@,
            len == chars.len(),
            index <= len,
            forall|i: int| 0 <= i < index ==> is_ordering_char(#[trigger] s@[i]),
        decreases len - index,
    {
        index += 1;
    }
    proof {
        lemma_ordering_prefix_len(s@, index as int);
    }
    s.substring_char(index, len)
}

// ---------------------------------------------------------------------------
// Category tag
// ---------------------------------------------------------------------------

/// The index of the first `_` of `s`, or `s.len()` where it has none.
pub open spec fn first_underscore(s: Seq<char>) -> int
    decreases s.len(),
{
    if s.len() == 0 || s[0] == '_' {
        0
    } else {
        1 + first_underscore(s.drop_first())
    }
}

/// Whether `s` carries a category tag: its first `_` exists and does not
/// stand at the start.
pub open spec fn has_type_name(s: Seq<char>) -> bool {
    0 < first_underscore(s) < s.len()
}

/// The category tag of a name: what stands before its first `_`, or nothing
/// where the name has no `_` or starts with one.
pub open spec fn type_name_spec(s: Seq<char>) -> Seq<char> {
    if has_type_name(s) {
        s.take(first_underscore(s))
    } else {
        Seq::empty()
    }
}

/// What is left of a name beside its category tag: the name from its first
/// `_` on, or the whole name where it carries no tag.
pub open spec fn remainder_spec(s: Seq<char>) -> Seq<char> {
    if has_type_name(s) {
        s.skip(first_underscore(s))
    } else {
        s
    }
}

/// `k` is the place of the first `_` of `s`, or its length where there is none.
pub open spec fn is_first_underscore(s: Seq<char>, k: int) -> bool {
    &&& 0 <= k <= s.len()
    &&& forall|i: int| 0 <= i < k ==> #[trigger] s[i] != '_'
    &&& k < s.len() ==> s[k] == '_'
}

/// `first_underscore` finds the first `_`, and nothing else does.
pub proof fn lemma_first_underscore(s: Seq<char>, k: int)
    ensures
        is_first_underscore(s, k) <==> k == first_underscore(s),
    decreases s.len(),
{
    if s.len() == 0 || s[0] == '_' {
        if is_first_underscore(s, k) && k > 0 {
            assert(s[0] != '_');
        }
    } else {
        let t = s.drop_first();
        lemma_first_underscore(t, k - 1);
        if is_first_underscore(s, k) {
            assert forall|i: int| 0 <= i < k - 1 implies #[trigger] t[i] != '_' by {
                assert(t[i] == s[i + 1]);
            }
            assert(is_first_underscore(t, k - 1));
        }
        if k == first_underscore(s) {
            assert(is_first_underscore(t, k - 1));
            assert forall|i: int| 0 <= i < k implies #[trigger] s[i] != '_' by {
                if i > 0 {
                    assert(s[i] == t[i - 1]);
                }
            }
            assert(k < s.len() ==> s[k] == t[k - 1]);
        }
    }
}

/// Splitting a name into tag and remainder loses nothing.
pub proof fn lemma_type_name_and_remainder(s: Seq<char>)
    ensures
        type_name_spec(s) + remainder_spec(s) == s,
        !type_name_spec(s).contains('_'),
        type_name_spec(s).len() > 0 ==> remainder_spec(s)[0] == '_',
{
    let k = first_underscore(s);
    lemma_first_underscore(s, k);
    assert(type_name_spec(s) + remainder_spec(s) =~= s);
    if has_type_name(s) {
        assert forall|i: int| 0 <= i < k implies #[trigger] s.take(k)[i] != '_' by {
            assert(s[i] != '_');
        }
    }
}

/// Splits a file name into its category tag and the remainder. The tag is
/// what stands before the first `_`, and the remainder starts at that `_`.
/// A name without `_`, or with `_` as its first character, has the empty tag
/// and is its own remainder.
pub fn get_type_name_and_file_name(name: &str) -> (r: (&str, &str))
    ensures
        r.0@ == type_name_spec(name@),
        r.1@ == remainder_spec(name@),
{
    let chars = chars_of(name);
    let len = chars.len();
    let mut index: usize = 0;
    while index < len && chars[index] != '_'
        invariant
            chars@ == name@,
            len == chars.len(),
            index <= len,
            forall|i: int| 0 <= i < index ==> #[trigger] name@[i] != '_',
        decreases len - index,
    {
        index += 1;
    }
    proof {
        lemma_first_underscore(name@, index as int);
    }
    if 0 < index && index < len {
        (name.substring_char(0, index), name.substring_char(index, len))
    } else {
        proof {
            assert(name@.subrange(0, len as int) =~= name@);
            assert(name@.subrange(0, 0) =~= Seq::<char>::empty());
        }
        (name.substring_char(0, 0), name.substring_char(0, len))
    }
}

// ---------------------------------------------------------------------------
// Equality and order of names
// ---------------------------------------------------------------------------

/// Whether two strings hold the same characters.
pub fn str_eq(a: &str, b: &str) -> (r: bool)
    ensures
        r == (a@ == b@),
{
    let va = chars_of(a);
    let vb = chars_of(b);
    if va.len() != vb.len() {
        return false;
    }
    let mut i: usize = 0;
    while i < va.len()
        invariant
            va@ == a@,
            vb@ == b@,
            va.len() == vb.len(),
            i <= va.len(),
            forall|j: int| 0 <= j < i ==> a@[j] == b@[j],
        decreases va.len() - i,
    {
        if va[i] != vb[i] {
            return false;
        }
        i += 1;
    }
    assert(a@ =~= b@);
    true
}

/// The lexicographic order of strings by the code points of their
/// characters: the order in which `str` values compare.
pub open spec fn lex_lt(a: Seq<char>, b: Seq<char>) -> bool
    decreases a.len(),
{
    if b.len() == 0 {
        false
    } else if a.len() == 0 {
        true
    } else if a[0] != b[0] {
        a[0] < b[0]
    } else {
        lex_lt(a.drop_first(), b.drop_first())
    }
}

/// Two strings compare as what follows their common prefix.
pub proof fn lemma_lex_lt_skip(a: Seq<char>, b: Seq<char>, k: int)
    requires
        0 <= k <= a.len(),
        k <= b.len(),
        forall|i: int| 0 <= i < k ==> a[i] == b[i],
    ensures
        lex_lt(a, b) == lex_lt(a.skip(k), b.skip(k)),
    decreases k,
{
    if k == 0 {
        assert(a.skip(0) =~= a);
        assert(b.skip(0) =~= b);
    } else {
        assert(a[0] == b[0]);
        lemma_lex_lt_skip(a.drop_first(), b.drop_first(), k - 1);
        assert(a.drop_first().skip(k - 1) =~= a.skip(k));
        assert(b.drop_first().skip(k - 1) =~= b.skip(k));
    }
}

/// No string is below itself.
pub proof fn lemma_lex_lt_irreflexive(a: Seq<char>)
    ensures
        !lex_lt(a, a),
    decreases a.len(),
{
    if a.len() > 0 {
        lemma_lex_lt_irreflexive(a.drop_first());
    }
}

/// Of two different strings one is below the other.
pub proof fn lemma_lex_lt_total(a: Seq<char>, b: Seq<char>)
    ensures
        a == b || lex_lt(a, b) || lex_lt(b, a),
    decreases a.len(),
{
    if a.len() == 0 || b.len() == 0 {
        if a.len() == 0 && b.len() == 0 {
            assert(a =~= b);
        }
    } else if a[0] == b[0] {
        lemma_lex_lt_total(a.drop_first(), b.drop_first());
        if a.drop_first() == b.drop_first() {
            assert(a =~= seq![a[0]] + a.drop_first());
            assert(b =~= seq![b[0]] + b.drop_first());
        }
    }
}

/// Two strings are never below each other.
pub proof fn lemma_lex_lt_asymmetric(a: Seq<char>, b: Seq<char>)
    ensures
        !(lex_lt(a, b) && lex_lt(b, a)),
    decreases a.len(),
{
    if a.len() > 0 && b.len() > 0 && a[0] == b[0] {
        lemma_lex_lt_asymmetric(a.drop_first(), b.drop_first());
    }
}

/// The order of strings is transitive.
pub proof fn lemma_lex_lt_transitive(a: Seq<char>, b: Seq<char>, c: Seq<char>)
    requires
        lex_lt(a, b),
        lex_lt(b, c),
    ensures
        lex_lt(a, c),
    decreases a.len(),
{
    if a.len() > 0 && a[0] == b[0] && b[0] == c[0] {
        lemma_lex_lt_transitive(a.drop_first(), b.drop_first(), c.drop_first());
    }
}

/// Whether `a` sorts before `b` as strings do.
pub fn str_lt(a: &str, b: &str) -> (r: bool)
    ensures
        r == lex_lt(a@, b@),
{
    let va = chars_of(a);
    let vb = chars_of(b);
    let mut i: usize = 0;
    while i < va.len() && i < vb.len()
        invariant
            va@ == a@,
            vb@ == b@,
            i <= va.len(),
            i <= vb.len(),
            forall|j: int| 0 <= j < i ==> a@[j] == b@[j],
        decreases va.len() - i,
    {
        if va[i] != vb[i] {
            proof {
                lemma_lex_lt_skip(a@, b@, i as int);
            }
            return va[i] < vb[i];
        }
        i += 1;
    }
    proof {
        lemma_lex_lt_skip(a@, b@, i as int);
    }
    i < vb.len()
}

// ---------------------------------------------------------------------------
// Name tests of the tree walk
// ---------------------------------------------------------------------------

/// The code point of `c`, with the ASCII capitals mapped to their small
/// letters.
pub open spec fn ascii_fold(c: char) -> int {
    if 'A' <= c && c <= 'Z' {
        c as int + 32
    } else {
        c as int
    }
}

/// Equality of strings up to the case of their ASCII letters.
pub open spec fn eq_ignore_ascii_case_spec(a: Seq<char>, b: Seq<char>) -> bool {
    &&& a.len() == b.len()
    &&& forall|i: int| 0 <= i < a.len() ==> ascii_fold(#[trigger] a[i]) == ascii_fold(b[i])
}

fn fold(c: char) -> (r: u32)
    ensures
        r == ascii_fold(c),
{
    if c >= 'A' && c <= 'Z' {
        c as u32 + 32
    } else {
        c as u32
    }
}

/// Whether two strings are equal up to the case of their ASCII letters.
pub fn eq_ignore_ascii_case(a: &str, b: &str) -> (r: bool)
    ensures
        r == eq_ignore_ascii_case_spec(a@, b@),
{
    let va = chars_of(a);
    let vb = chars_of(b);
    if va.len() != vb.len() {
        return false;
    }
    let mut i: usize = 0;
    while i < va.len()
        invariant
            va@ == a@,
            vb@ == b@,
            va.len() == vb.len(),
            i <= va.len(),
            forall|j: int| 0 <= j < i ==> ascii_fold(#[trigger] a@[j]) == ascii_fold(b@[j]),
        decreases va.len() - i,
    {
        if fold(va[i]) != fold(vb[i]) {
            return false;
        }
        i += 1;
    }
    true
}

/// A name with the extension `md`: it ends in `.md`, and something stands
/// before that dot.
pub open spec fn has_md_extension_spec(s: Seq<char>) -> bool {
    &&& s.len() > 3
    &&& s[s.len() - 3] == '.'
    &&& s[s.len() - 2] == 'm'
    &&& s[s.len() - 1] == 'd'
}

/// Whether a file name has the extension `md`.
pub fn has_md_extension(name: &str) -> (r: bool)
    ensures
        r == has_md_extension_spec(name@),
{
    let chars = chars_of(name);
    let len = chars.len();
    len > 3 && chars[len - 3] == '.' && chars[len - 2] == 'm' && chars[len - 1] == 'd'
}

} // verus!
