//! Verified text utilities shared by the resolver and the scanner:
//! character extraction, lexicographic ordering of strings, substring
//! search, trimming, ASCII lowercasing and sorted deduplication.

use vstd::prelude::*;
use vstd::std_specs::iter::IteratorSpec;

verus! {

broadcast use vstd::string::group_string_axioms;

/// Equal scalar values make equal characters.
pub proof fn lemma_char_eq(a: char, b: char)
    requires
        a as u32 == b as u32,
    ensures
        a == b,
{
    vstd::utf8::char_u32_cast(a, a as u32);
    vstd::utf8::char_u32_cast(b, b as u32);
}

/// The characters of `s`, collected into a vector.
pub fn chars_of(s: &str) -> (r: Vec<char>)
    ensures
        r@ == s@,
{
    let mut it = s.chars();
    let mut r: Vec<char> = Vec::new();
    loop
        invariant
            it.obeys_prophetic_iter_laws(),
            it.decrease() is Some,
            r@ + it.remaining() == s@,
        ensures
            r@ == s@,
        decreases it.decrease()->0,
    {
        match it.next() {
            Some(c) => r.push(c),
            None => {
                proof {
                    assert(r@ =~= s@);
                }
                break ;
            },
        }
    }
    r
}

/// Lexicographic order on character sequences, by Unicode scalar value;
/// a proper prefix comes before every extension of it.
pub open spec fn lex_leq(a: Seq<char>, b: Seq<char>) -> bool
    decreases a.len(),
{
    if a.len() == 0 {
        true
    } else if b.len() == 0 {
        false
    } else if (a[0] as u32) < (b[0] as u32) {
        true
    } else if (a[0] as u32) > (b[0] as u32) {
        false
    } else {
        lex_leq(a.drop_first(), b.drop_first())
    }
}

/// Strict lexicographic order.
pub open spec fn lex_lt(a: Seq<char>, b: Seq<char>) -> bool {
    lex_leq(a, b) && a != b
}

/// `lex_leq` is total: of two sequences, one is less than or equal to the other.
pub proof fn lemma_lex_leq_total(a: Seq<char>, b: Seq<char>)
    ensures
        lex_leq(a, b) || lex_leq(b, a),
    decreases a.len(),
{
    if a.len() != 0 && b.len() != 0 && a[0] as u32 == b[0] as u32 {
        lemma_lex_leq_total(a.drop_first(), b.drop_first());
    }
}

/// `lex_leq` is antisymmetric: mutual order means equality.
pub proof fn lemma_lex_leq_antisymmetric(a: Seq<char>, b: Seq<char>)
    requires
        lex_leq(a, b),
        lex_leq(b, a),
    ensures
        a == b,
    decreases a.len(),
{
    if a.len() != 0 && b.len() != 0 {
        lemma_char_eq(a[0], b[0]);
        lemma_lex_leq_antisymmetric(a.drop_first(), b.drop_first());
        assert(a =~= seq![a[0]] + a.drop_first());
        assert(b =~= seq![b[0]] + b.drop_first());
    } else {
        assert(a =~= b);
    }
}

/// `lex_leq` is transitive.
pub proof fn lemma_lex_leq_transitive(a: Seq<char>, b: Seq<char>, c: Seq<char>)
    requires
        lex_leq(a, b),
        lex_leq(b, c),
    ensures
        lex_leq(a, c),
    decreases a.len(),
{
    if a.len() != 0 && b.len() != 0 && c.len() != 0 && a[0] as u32 == b[0] as u32 && b[0] as u32
        == c[0] as u32 {
        lemma_lex_leq_transitive(a.drop_first(), b.drop_first(), c.drop_first());
    }
}

/// Whether the characters of `a` come lexicographically no later than those of `b`.
pub fn str_leq(a: &str, b: &str) -> (r: bool)
    ensures
        r == lex_leq(a@, b@),
{
    let av = chars_of(a);
    let bv = chars_of(b);
    char_seq_leq(&av, &bv)
}

/// `lex_leq` restricted to equal-prefix tails: dropping one shared head
/// character does not change the order.
proof fn lemma_lex_leq_skip(a: Seq<char>, b: Seq<char>, i: int)
    requires
        0 <= i < a.len(),
        0 <= i < b.len(),
        forall|j: int| 0 <= j <= i ==> a[j] == b[j],
    ensures
        lex_leq(a, b) == lex_leq(a.skip(i + 1), b.skip(i + 1)),
    decreases i,
{
    if i == 0 {
        assert(a.drop_first() =~= a.skip(1));
        assert(b.drop_first() =~= b.skip(1));
    } else {
        assert(lex_leq(a, b) == lex_leq(a.drop_first(), b.drop_first()));
        lemma_lex_leq_skip(a.drop_first(), b.drop_first(), i - 1);
        assert(a.drop_first().skip(i) =~= a.skip(i + 1));
        assert(b.drop_first().skip(i) =~= b.skip(i + 1));
    }
}

/// `lex_leq` is reflexive.
pub proof fn lemma_lex_leq_reflexive(a: Seq<char>)
    ensures
        lex_leq(a, a),
    decreases a.len(),
{
    if a.len() != 0 {
        lemma_lex_leq_reflexive(a.drop_first());
    }
}

/// Strict lexicographic order is transitive.
pub proof fn lemma_lex_lt_transitive(a: Seq<char>, b: Seq<char>, c: Seq<char>)
    requires
        lex_lt(a, b),
        lex_lt(b, c),
    ensures
        lex_lt(a, c),
{
    lemma_lex_leq_transitive(a, b, c);
    if a == c {
        lemma_lex_leq_antisymmetric(a, b);
    }
}

/// Whether the characters of `a` come strictly before those of `b`.
pub fn str_lt(a: &str, b: &str) -> (r: bool)
    ensures
        r == lex_lt(a@, b@),
{
    let ab = str_leq(a, b);
    let ba = str_leq(b, a);
    proof {
        if ab && ba {
            lemma_lex_leq_antisymmetric(a@, b@);
        }
        if a@ == b@ {
            lemma_lex_leq_reflexive(a@);
        }
    }
    ab && !ba
}

/// Strictly ascending in lexicographic order: sorted, with no duplicates.
pub open spec fn strictly_sorted(s: Seq<Seq<char>>) -> bool {
    forall|i: int, j: int| 0 <= i < j < s.len() ==> lex_lt(#[trigger] s[i], #[trigger] s[j])
}

/// Inserts `x` into the strictly sorted vector `v`, keeping it strictly
/// sorted; a value already present is not added again.
pub fn insert_sorted(v: &mut Vec<String>, x: String)
    requires
        strictly_sorted(old(v).deep_view()),
    ensures
        strictly_sorted(final(v).deep_view()),
        forall|t: Seq<char>|
            #[trigger] final(v).deep_view().contains(t) <==> (old(v).deep_view().contains(t) || t
                == x@),
{
    let ghost w = v.deep_view();
    let mut i: usize = 0;
    while i < v.len() && str_lt(v[i].as_str(), x.as_str())
        invariant
            i <= v.len(),
            v.deep_view() == w,
            strictly_sorted(w),
            forall|j: int| 0 <= j < i ==> lex_lt(w[j], x@),
        decreases v.len() - i,
    {
        i = i + 1;
    }
    if i < v.len() && !str_lt(x.as_str(), v[i].as_str()) {
        proof {
            lemma_lex_leq_total(x@, w[i as int]);
            assert(w[i as int] == x@);
            assert(v.deep_view().contains(x@));
            assert forall|t: Seq<char>| #[trigger] v.deep_view().contains(t) <==> (w.contains(t)
                || t == x@) by {
                if t == x@ {
                    assert(w[i as int] == t);
                }
            }
        }
        return ;
    }
    proof {
        assert(i < v.len() ==> lex_lt(x@, w[i as int]));
        assert forall|j: int| i <= j < w.len() implies lex_lt(x@, #[trigger] w[j]) by {
            if i < j {
                lemma_lex_lt_transitive(x@, w[i as int], w[j]);
            }
        }
    }
    v.insert(i, x);
    proof {
        let nv = v.deep_view();
        assert(nv =~= w.subrange(0, i as int) + seq![x@] + w.subrange(i as int, w.len() as int));
        assert(forall|p: int| 0 <= p < i ==> nv[p] == w[p]);
        assert(nv[i as int] == x@);
        assert(forall|p: int| i < p < nv.len() ==> nv[p] == w[p - 1]);
        assert forall|p: int, q: int| 0 <= p < q < nv.len() implies lex_lt(
            #[trigger] nv[p],
            #[trigger] nv[q],
        ) by {
            if p < i && q < i {
            } else if p == i && q > i {
            } else if p < i && q == i {
            } else if p < i && q > i {
                assert(lex_lt(w[p], w[q - 1]) || p == q - 1);
            }
        }
        assert forall|t: Seq<char>| #[trigger] nv.contains(t) <==> (w.contains(t) || t == x@) by {
            if nv.contains(t) {
                let p = choose|p: int| 0 <= p < nv.len() && nv[p] == t;
                if p < i {
                    assert(w[p] == t);
                } else if p > i {
                    assert(w[p - 1] == t);
                }
            }
            if w.contains(t) {
                let p = choose|p: int| 0 <= p < w.len() && w[p] == t;
                if p < i {
                    assert(nv[p] == t);
                } else {
                    assert(nv[p + 1] == t);
                }
            }
            if t == x@ {
                assert(nv[i as int] == t);
            }
        }
    }
}

/// A sorted, deduplicated arrangement: strictly ascending, holding exactly
/// the members of `src`.
pub open spec fn is_sorted_members(r: Seq<Seq<char>>, src: Seq<Seq<char>>) -> bool {
    strictly_sorted(r) && (forall|t: Seq<char>| #[trigger] r.contains(t) <==> src.contains(t))
}

/// `x` put into its place in the sorted sequence `s`; a value already
/// present is not added again.
pub open spec fn insert_sorted_spec(x: Seq<char>, s: Seq<Seq<char>>) -> Seq<Seq<char>>
    decreases s.len(),
{
    if s.len() == 0 {
        seq![x]
    } else if x == s[0] {
        s
    } else if lex_lt(x, s[0]) {
        seq![x] + s
    } else {
        seq![s[0]] + insert_sorted_spec(x, s.drop_first())
    }
}

/// The canonical sorted, duplicate-free arrangement of the members of `s`.
pub open spec fn sort_dedup_spec(s: Seq<Seq<char>>) -> Seq<Seq<char>>
    decreases s.len(),
{
    if s.len() == 0 {
        Seq::<Seq<char>>::empty()
    } else {
        insert_sorted_spec(s[0], sort_dedup_spec(s.drop_first()))
    }
}

/// Prefixing a sorted sequence with an element below all its members keeps
/// it sorted.
proof fn lemma_cons_sorted(h: Seq<char>, s: Seq<Seq<char>>)
    requires
        strictly_sorted(s),
        forall|j: int| 0 <= j < s.len() ==> lex_lt(h, #[trigger] s[j]),
    ensures
        strictly_sorted(seq![h] + s),
{
    let r = seq![h] + s;
    assert forall|i: int, j: int| 0 <= i < j < r.len() implies lex_lt(
        #[trigger] r[i],
        #[trigger] r[j],
    ) by {
        if i > 0 {
            assert(r[i] == s[i - 1] && r[j] == s[j - 1]);
        } else {
            assert(r[j] == s[j - 1]);
        }
    }
}

/// Spec-level sorted insertion keeps the sequence sorted and adds exactly
/// the inserted member.
proof fn lemma_insert_sorted_spec(x: Seq<char>, s: Seq<Seq<char>>)
    requires
        strictly_sorted(s),
    ensures
        strictly_sorted(insert_sorted_spec(x, s)),
        forall|t: Seq<char>|
            #[trigger] insert_sorted_spec(x, s).contains(t) <==> (s.contains(t) || t == x),
    decreases s.len(),
{
    let r = insert_sorted_spec(x, s);
    if s.len() == 0 {
        assert forall|t: Seq<char>| #[trigger] r.contains(t) <==> (s.contains(t) || t == x) by {
            if t == x {
                assert(r[0] == t);
            }
            if r.contains(t) {
                assert(r[choose|p: int| 0 <= p < r.len() && r[p] == t] == t);
            }
        }
    } else if x == s[0] {
        assert forall|t: Seq<char>| #[trigger] r.contains(t) <==> (s.contains(t) || t == x) by {
            if t == x {
                assert(s[0] == t);
            }
        }
    } else if lex_lt(x, s[0]) {
        assert forall|j: int| 0 <= j < s.len() implies lex_lt(x, #[trigger] s[j]) by {
            if j > 0 {
                lemma_lex_lt_transitive(x, s[0], s[j]);
            }
        }
        lemma_cons_sorted(x, s);
        assert forall|t: Seq<char>| #[trigger] r.contains(t) <==> (s.contains(t) || t == x) by {
            if r.contains(t) {
                let p = choose|p: int| 0 <= p < r.len() && r[p] == t;
                if p > 0 {
                    assert(s[p - 1] == t);
                }
            }
            if s.contains(t) {
                let p = choose|p: int| 0 <= p < s.len() && s[p] == t;
                assert(r[p + 1] == t);
            }
            if t == x {
                assert(r[0] == t);
            }
        }
    } else {
        lemma_lex_leq_total(x, s[0]);
        lemma_lex_leq_reflexive(x);
        assert(lex_lt(s[0], x));
        assert(strictly_sorted(s.drop_first())) by {
            assert(forall|i: int, j: int|
                0 <= i < j < s.drop_first().len() ==> lex_lt(
                    #[trigger] s.drop_first()[i],
                    #[trigger] s.drop_first()[j],
                ));
        }
        lemma_insert_sorted_spec(x, s.drop_first());
        let rec = insert_sorted_spec(x, s.drop_first());
        assert forall|j: int| 0 <= j < rec.len() implies lex_lt(s[0], #[trigger] rec[j]) by {
            assert(rec.contains(rec[j]));
            if rec[j] == x {
            } else {
                assert(s.drop_first().contains(rec[j]));
                let p = choose|p: int| 0 <= p < s.drop_first().len() && s.drop_first()[p] == rec[j];
                assert(s[p + 1] == rec[j]);
            }
        }
        lemma_cons_sorted(s[0], rec);
        assert(r == seq![s[0]] + rec);
        assert forall|t: Seq<char>| #[trigger] r.contains(t) <==> (s.contains(t) || t == x) by {
            if r.contains(t) {
                let p = choose|p: int| 0 <= p < r.len() && r[p] == t;
                if p == 0 {
                    assert(s[0] == t);
                } else {
                    assert(rec[p - 1] == t);
                    assert(rec.contains(t));
                    if t != x {
                        let q = choose|q: int|
                            0 <= q < s.drop_first().len() && s.drop_first()[q] == t;
                        assert(s[q + 1] == t);
                    }
                }
            }
            if s.contains(t) {
                let p = choose|p: int| 0 <= p < s.len() && s[p] == t;
                if p == 0 {
                    assert(r[0] == t);
                } else {
                    assert(s.drop_first()[p - 1] == t);
                    assert(s.drop_first().contains(t));
                    assert(rec.contains(t));
                    let q = choose|q: int| 0 <= q < rec.len() && rec[q] == t;
                    assert(r[q + 1] == t);
                }
            }
            if t == x {
                assert(rec.contains(t));
                let q = choose|q: int| 0 <= q < rec.len() && rec[q] == t;
                assert(r[q + 1] == t);
            }
        }
    }
}

/// The canonical arrangement is sorted, duplicate-free, and holds exactly
/// the members of its source.
pub proof fn lemma_sort_dedup_spec(s: Seq<Seq<char>>)
    ensures
        is_sorted_members(sort_dedup_spec(s), s),
    decreases s.len(),
{
    if s.len() == 0 {
    } else {
        lemma_sort_dedup_spec(s.drop_first());
        lemma_insert_sorted_spec(s[0], sort_dedup_spec(s.drop_first()));
        assert forall|t: Seq<char>| #[trigger] sort_dedup_spec(s).contains(t) <==> s.contains(
            t,
        ) by {
            if sort_dedup_spec(s).contains(t) {
                if t == s[0] {
                    assert(s.contains(s[0]));
                } else {
                    assert(s.drop_first().contains(t));
                    let p = choose|p: int|
                        0 <= p < s.drop_first().len() && s.drop_first()[p] == t;
                    assert(s[p + 1] == t);
                }
            }
            if s.contains(t) {
                let p = choose|p: int| 0 <= p < s.len() && s[p] == t;
                if p > 0 {
                    assert(s.drop_first()[p - 1] == t);
                    assert(s.drop_first().contains(t));
                }
            }
        }
    }
}

/// The members of `v`, sorted lexicographically with duplicates removed,
/// in canonical arrangement.
pub fn sorted_dedup(v: &Vec<String>) -> (r: Vec<String>)
    ensures
        r.deep_view() == sort_dedup_spec(v.deep_view()),
        strictly_sorted(r.deep_view()),
        forall|t: Seq<char>|
            #[trigger] r.deep_view().contains(t) <==> v.deep_view().contains(t),
{
    let mut r: Vec<String> = Vec::new();
    let mut i: usize = 0;
    while i < v.len()
        invariant
            i <= v.len(),
            strictly_sorted(r.deep_view()),
            forall|t: Seq<char>|
                #[trigger] r.deep_view().contains(t) <==> v.deep_view().subrange(
                    0,
                    i as int,
                ).contains(t),
        decreases v.len() - i,
    {
        let ghost prev = r.deep_view();
        let s = v[i].clone();
        insert_sorted(&mut r, s);
        proof {
            let pre = v.deep_view().subrange(0, i as int);
            let cur = v.deep_view().subrange(0, i + 1);
            assert(cur =~= pre.push(v.deep_view()[i as int]));
            assert forall|t: Seq<char>| #[trigger] cur.contains(t) <==> (pre.contains(t) || t
                == v.deep_view()[i as int]) by {
                if cur.contains(t) {
                    let p = choose|p: int| 0 <= p < cur.len() && cur[p] == t;
                    if p < pre.len() {
                        assert(pre[p] == t);
                    }
                }
                if pre.contains(t) {
                    let p = choose|p: int| 0 <= p < pre.len() && pre[p] == t;
                    assert(cur[p] == t);
                }
                if t == v.deep_view()[i as int] {
                    assert(cur[cur.len() - 1] == t);
                }
            }
        }
        i = i + 1;
    }
    proof {
        assert(v.deep_view().subrange(0, v.deep_view().len() as int) =~= v.deep_view());
        lemma_sort_dedup_spec(v.deep_view());
        let canon = sort_dedup_spec(v.deep_view());
        assert forall|t: Seq<char>| #[trigger] r.deep_view().contains(t) <==> canon.contains(
            t,
        ) by {
            assert(r.deep_view().contains(t) <==> v.deep_view().contains(t));
            assert(canon.contains(t) <==> v.deep_view().contains(t));
        }
        lemma_strictly_sorted_unique(r.deep_view(), canon);
    }
    r
}

/// Two strictly sorted sequences with the same members are equal: sorting
/// and deduplicating puts a collection of strings into a canonical form.
pub proof fn lemma_strictly_sorted_unique(a: Seq<Seq<char>>, b: Seq<Seq<char>>)
    requires
        strictly_sorted(a),
        strictly_sorted(b),
        forall|t: Seq<char>| #[trigger] a.contains(t) <==> b.contains(t),
    ensures
        a == b,
    decreases a.len(),
{
    if a.len() == 0 {
        if b.len() > 0 {
            assert(b.contains(b[0]));
            assert(a.contains(b[0]));
        }
        assert(a =~= b);
    } else {
        assert(a.contains(a[0]));
        assert(b.contains(a[0]));
        assert(b.contains(b[0]));
        assert(a.contains(b[0]));
        let ia = choose|j: int| 0 <= j < b.len() && b[j] == a[0];
        let ib = choose|j: int| 0 <= j < a.len() && a[j] == b[0];
        if ia > 0 {
            assert(lex_lt(b[0], b[ia]));
        } else {
            lemma_lex_leq_reflexive(b[0]);
        }
        if ib > 0 {
            assert(lex_lt(a[0], a[ib]));
        } else {
            lemma_lex_leq_reflexive(a[0]);
        }
        lemma_lex_leq_antisymmetric(a[0], b[0]);
        assert(a[0] == b[0]);
        let ta = a.drop_first();
        let tb = b.drop_first();
        assert forall|t: Seq<char>| #[trigger] ta.contains(t) <==> tb.contains(t) by {
            lemma_tail_contains(a, t);
            lemma_tail_contains(b, t);
        }
        lemma_strictly_sorted_unique(ta, tb);
        assert forall|p: int| 0 <= p < a.len() implies a[p] == b[p] by {
            if p > 0 {
                assert(a[p] == ta[p - 1]);
                assert(b[p] == tb[p - 1]);
            }
        }
        assert(a =~= b);
    }
}

/// In a strictly sorted sequence, the tail holds exactly the members other
/// than the head.
proof fn lemma_tail_contains(a: Seq<Seq<char>>, t: Seq<char>)
    requires
        strictly_sorted(a),
        a.len() > 0,
    ensures
        a.drop_first().contains(t) <==> (a.contains(t) && t != a[0]),
{
    let ta = a.drop_first();
    if ta.contains(t) {
        let p = choose|p: int| 0 <= p < ta.len() && ta[p] == t;
        assert(a[p + 1] == t);
        assert(lex_lt(a[0], a[p + 1]));
    }
    if a.contains(t) && t != a[0] {
        let p = choose|p: int| 0 <= p < a.len() && a[p] == t;
        assert(ta[p - 1] == t);
    }
}

/// True of a character treated as blank when trimming: the ASCII whitespace
/// characters. Exotic Unicode spaces are kept, a deliberate choice.
pub open spec fn is_blank(c: char) -> bool {
    c == ' ' || c == '\t' || c == '\n' || c == '\r' || c == '\u{b}' || c == '\u{c}'
}

/// Whether `c` is blank, as [`is_blank`] defines it.
pub fn blank_char(c: char) -> (r: bool)
    ensures
        r == is_blank(c),
{
    c == ' ' || c == '\t' || c == '\n' || c == '\r' || c == '\u{b}' || c == '\u{c}'
}

/// True of an ASCII decimal digit; digits of other scripts do not count,
/// a deliberate choice.
pub open spec fn is_digit(c: char) -> bool {
    48 <= c as u32 && c as u32 <= 57
}

/// Whether `c` is a decimal digit.
pub fn digit_char(c: char) -> (r: bool)
    ensures
        r == is_digit(c),
{
    let u = c as u32;
    48 <= u && u <= 57
}

/// A character folded to lower case, for the ASCII letters; every other
/// character — non-ASCII letters included, a deliberate choice — is left as
/// it is.
pub open spec fn lower_char(c: char) -> char {
    if 65 <= c as u32 && c as u32 <= 90 {
        ((c as u32 + 32) as u32) as char
    } else {
        c
    }
}

/// A character sequence folded to lower case, character by character.
pub open spec fn lower_seq(s: Seq<char>) -> Seq<char> {
    s.map_values(|c: char| lower_char(c))
}

/// `c` folded to lower case, as [`lower_char`] defines it.
pub fn to_lower_char(c: char) -> (r: char)
    ensures
        r == lower_char(c),
{
    let u = c as u32;
    if 65 <= u && u <= 90 {
        let b: u8 = (u as u8) + 32;
        let r = b as char;
        proof {
            vstd::utf8::char_u32_cast(r, r as u32);
        }
        r
    } else {
        c
    }
}

/// The characters of `v`, folded to lower case.
pub fn lower_chars(v: &Vec<char>) -> (r: Vec<char>)
    ensures
        r@ == lower_seq(v@),
{
    let mut r: Vec<char> = Vec::new();
    let mut i: usize = 0;
    while i < v.len()
        invariant
            i <= v.len(),
            r@ == v@.subrange(0, i as int).map_values(|c: char| lower_char(c)),
        decreases v.len() - i,
    {
        r.push(to_lower_char(v[i]));
        proof {
            assert(v@.subrange(0, i + 1).map_values(|c: char| lower_char(c)) =~= v@.subrange(
                0,
                i as int,
            ).map_values(|c: char| lower_char(c)).push(lower_char(v@[i as int])));
        }
        i = i + 1;
    }
    proof {
        assert(v@.subrange(0, v@.len() as int) =~= v@);
    }
    r
}

/// The characters of `v` from `a` up to `b`, as a fresh vector.
pub fn subvec(v: &Vec<char>, a: usize, b: usize) -> (r: Vec<char>)
    requires
        a <= b <= v.len(),
    ensures
        r@ == v@.subrange(a as int, b as int),
{
    let mut r: Vec<char> = Vec::new();
    let mut i: usize = a;
    while i < b
        invariant
            a <= i <= b <= v.len(),
            r@ == v@.subrange(a as int, i as int),
        decreases b - i,
    {
        r.push(v[i]);
        proof {
            assert(v@.subrange(a as int, i + 1) =~= v@.subrange(a as int, i as int).push(
                v@[i as int],
            ));
        }
        i = i + 1;
    }
    r
}

/// The index of the first occurrence of `sep` in `s`, or the length of `s`
/// when `sep` does not occur.
pub open spec fn first_occurrence(s: Seq<char>, sep: char) -> int
    decreases s.len(),
{
    if s.len() == 0 {
        0
    } else if s[0] == sep {
        0
    } else {
        1 + first_occurrence(s.drop_first(), sep)
    }
}

/// An index with no `sep` before it that points at a `sep` (or past the end
/// when there is none) is exactly `first_occurrence`.
pub proof fn lemma_first_occurrence_is(s: Seq<char>, sep: char, i: int)
    requires
        0 <= i <= s.len(),
        forall|j: int| 0 <= j < i ==> s[j] != sep,
        i < s.len() ==> s[i] == sep,
    ensures
        first_occurrence(s, sep) == i,
    decreases s.len(),
{
    if s.len() != 0 && i > 0 {
        assert(s[0] != sep);
        assert forall|j: int| 0 <= j < i - 1 implies s.drop_first()[j] != sep by {
            assert(s[j + 1] != sep);
        }
        if i - 1 < s.drop_first().len() {
            assert(s.drop_first()[i - 1] == s[i]);
        }
        lemma_first_occurrence_is(s.drop_first(), sep, i - 1);
    }
}

/// `needle` occurs as a contiguous run inside `hay`.
pub open spec fn contains_sub(hay: Seq<char>, needle: Seq<char>) -> bool {
    exists|i: int|
        0 <= i && i + needle.len() <= hay.len() && #[trigger] hay.subrange(i, i + needle.len())
            == needle
}

/// Whether `hay` matches `needle` starting at position `at`.
fn matches_at(hay: &Vec<char>, needle: &Vec<char>, at: usize) -> (r: bool)
    requires
        at + needle.len() <= hay.len(),
    ensures
        r == (hay@.subrange(at as int, at + needle@.len()) == needle@),
{
    let mut j: usize = 0;
    while j < needle.len()
        invariant
            j <= needle.len(),
            at + needle.len() <= hay.len(),
            forall|k: int| 0 <= k < j ==> hay@[at + k] == needle@[k],
        decreases needle.len() - j,
    {
        if hay[at + j] != needle[j] {
            proof {
                assert(hay@.subrange(at as int, at + needle@.len())[j as int] == hay@[at + j]);
            }
            return false;
        }
        j = j + 1;
    }
    proof {
        assert(hay@.subrange(at as int, at + needle@.len()) =~= needle@);
    }
    true
}

/// Whether `needle` occurs anywhere inside `hay`.
pub fn contains_chars(hay: &Vec<char>, needle: &Vec<char>) -> (r: bool)
    ensures
        r == contains_sub(hay@, needle@),
{
    if needle.len() == 0 {
        proof {
            assert(hay@.subrange(0, 0 + needle@.len() as int) =~= needle@);
        }
        return true;
    }
    if needle.len() > hay.len() {
        return false;
    }
    let bound = hay.len() - needle.len();
    let mut i: usize = 0;
    while i <= bound
        invariant
            1 <= needle.len(),
            bound == hay.len() - needle.len(),
            i <= bound + 1,
            forall|k: int| 0 <= k < i ==> #[trigger] hay@.subrange(k, k + needle@.len())
                != needle@,
        decreases bound + 1 - i,
    {
        if matches_at(hay, needle, i) {
            return true;
        }
        i = i + 1;
    }
    false
}

/// Whether `needle` occurs inside `hay`; the needle is given as a string.
pub fn contains_str(hay: &Vec<char>, needle: &str) -> (r: bool)
    ensures
        r == contains_sub(hay@, needle@),
{
    let n = chars_of(needle);
    contains_chars(hay, &n)
}

/// `s` with every leading blank character removed.
pub open spec fn trim_front(s: Seq<char>) -> Seq<char>
    decreases s.len(),
{
    if s.len() == 0 {
        s
    } else if is_blank(s[0]) {
        trim_front(s.drop_first())
    } else {
        s
    }
}

/// `s` with every trailing blank character removed.
pub open spec fn trim_back(s: Seq<char>) -> Seq<char>
    decreases s.len(),
{
    if s.len() == 0 {
        s
    } else if is_blank(s.last()) {
        trim_back(s.drop_last())
    } else {
        s
    }
}

/// `s` with leading and trailing blank characters removed.
pub open spec fn trim_seq(s: Seq<char>) -> Seq<char> {
    trim_back(trim_front(s))
}

/// The bounds of the trimmed span of `v` between `a` and `b`: trimming that
/// stretch keeps exactly the characters from `r.0` up to `r.1`.
pub fn trim_range(v: &Vec<char>, a: usize, b: usize) -> (r: (usize, usize))
    requires
        a <= b <= v.len(),
    ensures
        a <= r.0 <= r.1 <= b,
        trim_seq(v@.subrange(a as int, b as int)) == v@.subrange(r.0 as int, r.1 as int),
{
    let ghost w = v@.subrange(a as int, b as int);
    let mut start: usize = a;
    proof {
        assert(w.skip(0) =~= w);
    }
    while start < b && blank_char(v[start])
        invariant
            a <= start <= b <= v.len(),
            w == v@.subrange(a as int, b as int),
            trim_front(w) == trim_front(w.skip(start - a)),
        decreases b - start,
    {
        proof {
            assert(w.skip(start - a).drop_first() =~= w.skip(start + 1 - a));
            assert(w.skip(start - a)[0] == v@[start as int]);
        }
        start = start + 1;
    }
    proof {
        if start < b {
            assert(w.skip(start - a)[0] == v@[start as int]);
            assert(trim_front(w.skip(start - a)) == w.skip(start - a));
        } else {
            assert(w.skip(start - a) =~= Seq::<char>::empty());
        }
    }
    let mut end: usize = b;
    proof {
        assert(v@.subrange(start as int, b as int) =~= w.skip(start - a));
    }
    while end > start && blank_char(v[end - 1])
        invariant
            a <= start <= end <= b <= v.len(),
            w == v@.subrange(a as int, b as int),
            trim_seq(w) == trim_back(v@.subrange(start as int, end as int)),
        decreases end,
    {
        proof {
            let cur = v@.subrange(start as int, end as int);
            assert(cur.last() == v@[end - 1]);
            assert(cur.drop_last() =~= v@.subrange(start as int, end - 1));
        }
        end = end - 1;
    }
    proof {
        let cur = v@.subrange(start as int, end as int);
        if end > start {
            assert(cur.last() == v@[end - 1]);
            assert(trim_back(cur) == cur);
        } else {
            assert(cur =~= Seq::<char>::empty());
        }
    }
    (start, end)
}

/// Every character of `s` in the window of length `k` starting at `m` is a digit.
pub open spec fn digit_window(s: Seq<char>, m: int, k: int) -> bool {
    forall|j: int| m <= j < m + k ==> is_digit(s[j])
}

/// There is a run of at least `k` consecutive decimal digits in `s`.
pub open spec fn has_digit_run(s: Seq<char>, k: int) -> bool {
    exists|i: int| 0 <= i && i + k <= s.len() && #[trigger] digit_window(s, i, k)
}

/// Whether `v` holds a run of at least `k` consecutive decimal digits.
pub fn contains_digit_run(v: &Vec<char>, k: usize) -> (r: bool)
    requires
        1 <= k,
    ensures
        r == has_digit_run(v@, k as int),
{
    let mut i: usize = 0;
    let mut run: usize = 0;
    while i < v.len()
        invariant
            1 <= k,
            run <= i <= v@.len(),
            run < k,
            forall|j: int| i - run <= j < i ==> is_digit(v@[j]),
            run < i ==> !is_digit(v@[i - run - 1]),
            forall|m: int|
                0 <= m && m + k <= i ==> !#[trigger] digit_window(v@, m, k as int),
        decreases v.len() - i,
    {
        if digit_char(v[i]) {
            if run >= k - 1 {
                proof {
                    assert(forall|j: int| i - run <= j < i + 1 ==> is_digit(v@[j]));
                    assert(digit_window(v@, i + 1 - (k as int), k as int));
                }
                return true;
            }
            proof {
                assert forall|m: int|
                    0 <= m && m + k <= i + 1 implies !#[trigger] digit_window(
                    v@,
                    m,
                    k as int,
                ) by {
                    if m + k == i + 1 {
                        assert(m <= i - run - 1);
                        assert(!is_digit(v@[i - run - 1]));
                    }
                }
            }
            run = run + 1;
        } else {
            run = 0;
            proof {
                assert forall|m: int|
                    0 <= m && m + k <= i + 1 implies !#[trigger] digit_window(
                    v@,
                    m,
                    k as int,
                ) by {
                    if m + k == i + 1 {
                        assert(!is_digit(v@[i as int]));
                    }
                }
            }
        }
        i = i + 1;
    }
    false
}

/// Lexicographic comparison of two character vectors.
pub fn char_seq_leq(a: &Vec<char>, b: &Vec<char>) -> (r: bool)
    ensures
        r == lex_leq(a@, b@),
{
    let mut i: usize = 0;
    proof {
        assert(a@.skip(0) =~= a@);
        assert(b@.skip(0) =~= b@);
    }
    loop
        invariant
            i <= a.len(),
            i <= b.len(),
            forall|j: int| 0 <= j < i ==> a@[j] == b@[j],
            lex_leq(a@, b@) == lex_leq(a@.skip(i as int), b@.skip(i as int)),
        decreases a.len() - i,
    {
        if i == a.len() {
            proof {
                assert(a@.skip(i as int) =~= Seq::<char>::empty());
            }
            return true;
        }
        if i == b.len() {
            proof {
                assert(b@.skip(i as int) =~= Seq::<char>::empty());
                assert(a@.skip(i as int).len() != 0);
            }
            return false;
        }
        let ca = a[i];
        let cb = b[i];
        proof {
            assert(a@.skip(i as int)[0] == a@[i as int]);
            assert(b@.skip(i as int)[0] == b@[i as int]);
        }
        if (ca as u32) < (cb as u32) {
            return true;
        }
        if (ca as u32) > (cb as u32) {
            return false;
        }
        proof {
            lemma_char_eq(ca, cb);
            lemma_lex_leq_skip(a@, b@, i as int);
        }
        i = i + 1;
    }
}

} // verus!
