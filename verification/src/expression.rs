//! License-expression resolution: a declared license string is parsed under
//! the standard SPDX grammar; when that fails, `/`-separated alternatives are
//! rewritten as an `OR` expression and parsed again; when that fails too,
//! one legacy shape the standard grammar rejects — alternatives
//! parenthesized before a `WITH` exception — is accepted by collecting the
//! identifiers its SPDX tokens name. The identifiers named by the accepted
//! attempt come back sorted and deduplicated.

use vstd::prelude::*;
use vstd::string::StrSliceExecFns;
use vstd::string::StringExecFns;

use crate::text::{
    blank_char, chars_of, first_occurrence, is_blank, lemma_first_occurrence_is,
    lemma_sort_dedup_spec, lex_lt, sort_dedup_spec, sorted_dedup, strictly_sorted, trim_range,
    trim_seq,
};

verus! {

/// The separator written between rewritten alternatives.
pub open spec fn or_separator() -> Seq<char> {
    seq![' ', 'O', 'R', ' ']
}

/// The `/`-separated segments of `s`; a sequence without a slash is one
/// segment, itself.
pub open spec fn split_slash(s: Seq<char>) -> Seq<Seq<char>>
    decreases s.len(),
{
    let i = first_occurrence(s, '/');
    if 0 <= i && i < s.len() {
        seq![s.subrange(0, i)] + split_slash(s.subrange(i + 1, s.len() as int))
    } else {
        seq![s]
    }
}

/// Splitting yields at least one segment.
pub proof fn lemma_split_slash_nonempty(s: Seq<char>)
    ensures
        split_slash(s).len() >= 1,
{
}

/// The segments of `s`, each trimmed of blank characters.
pub open spec fn trimmed_segments(s: Seq<char>) -> Seq<Seq<char>> {
    split_slash(s).map_values(|p: Seq<char>| trim_seq(p))
}

/// Segments joined with ` OR ` written between them.
pub open spec fn join_or(parts: Seq<Seq<char>>) -> Seq<char>
    decreases parts.len(),
{
    if parts.len() == 0 {
        Seq::empty()
    } else if parts.len() == 1 {
        parts[0]
    } else {
        parts[0] + or_separator() + join_or(parts.drop_first())
    }
}

/// The fallback rewrite of a legacy license string: its `/`-separated
/// segments, trimmed, joined with ` OR `.
pub open spec fn slash_rewritten(s: Seq<char>) -> Seq<char> {
    join_or(trimmed_segments(s))
}

/// One step of the rewrite: with the segment `[pos, i)` delimited on the
/// right by a slash or by the end, the joined suffix from `pos` is that
/// segment trimmed, followed by the joined suffix after the slash.
proof fn lemma_segment_step(s: Seq<char>, pos: int, i: int)
    requires
        0 <= pos <= i <= s.len(),
        forall|j: int| pos <= j < i ==> s[j] != '/',
        i < s.len() ==> s[i] == '/',
    ensures
        i < s.len() ==> join_or(trimmed_segments(s.skip(pos))) == trim_seq(s.subrange(pos, i))
            + or_separator() + join_or(trimmed_segments(s.skip(i + 1))),
        i == s.len() ==> join_or(trimmed_segments(s.skip(pos))) == trim_seq(s.subrange(pos, i)),
{
    let t = s.skip(pos);
    assert forall|j: int| 0 <= j < i - pos implies t[j] != '/' by {
        assert(s[pos + j] != '/');
    }
    lemma_first_occurrence_is(t, '/', i - pos);
    if i < s.len() {
        assert(t.subrange(0, i - pos) =~= s.subrange(pos, i));
        assert(t.subrange(i - pos + 1, t.len() as int) =~= s.skip(i + 1));
        let rest = split_slash(s.skip(i + 1));
        assert(split_slash(t) == seq![s.subrange(pos, i)] + rest);
        lemma_split_slash_nonempty(s.skip(i + 1));
        assert(trimmed_segments(s.skip(pos)) =~= seq![trim_seq(s.subrange(pos, i))]
            + trimmed_segments(s.skip(i + 1)));
        let parts = trimmed_segments(s.skip(pos));
        assert(parts[0] == trim_seq(s.subrange(pos, i)));
        assert(parts.drop_first() =~= trimmed_segments(s.skip(i + 1)));
        assert(parts.len() >= 2);
    } else {
        assert(t =~= s.subrange(pos, i));
        assert(split_slash(t) == seq![t]);
        assert(trimmed_segments(s.skip(pos)) =~= seq![trim_seq(s.subrange(pos, i))]);
    }
}

/// The legacy rewrite applied to a whole string: every `/`-separated
/// segment, trimmed of blanks, joined with ` OR `.
pub fn rewrite_slashes(s: &str) -> (r: String)
    ensures
        r@ == slash_rewritten(s@),
{
    let cs = chars_of(s);
    let mut out = String::new();
    let mut pos: usize = 0;
    proof {
        assert(cs@.skip(0) =~= cs@);
    }
    loop
        invariant_except_break
            out@ + join_or(trimmed_segments(s@.skip(pos as int))) == slash_rewritten(s@),
        invariant
            pos <= cs.len(),
            cs@ == s@,
        ensures
            out@ == slash_rewritten(s@),
        decreases cs.len() - pos,
    {
        let mut i: usize = pos;
        while i < cs.len() && !(cs[i] == '/')
            invariant
                pos <= i <= cs.len(),
                forall|j: int| pos <= j < i ==> cs@[j] != '/',
            decreases cs.len() - i,
        {
            i = i + 1;
        }
        let bounds = trim_range(&cs, pos, i);
        let piece = s.substring_char(bounds.0, bounds.1);
        proof {
            lemma_segment_step(s@, pos as int, i as int);
            assert(piece@ == trim_seq(s@.subrange(pos as int, i as int)));
        }
        out.append(piece);
        if i < cs.len() {
            out.append(" OR ");
            proof {
                reveal_strlit(" OR ");
                assert(" OR "@ =~= or_separator());
            }
            pos = i + 1;
        } else {
            proof {
                assert(out@ == slash_rewritten(s@));
            }
            break ;
        }
    }
    out
}

/// What the SPDX parser makes of a license string: `None` when the string is
/// not a valid expression even after canonical validation; otherwise the
/// license identifiers and the exception identifiers named by its
/// requirement terms, in expression order.
pub uninterp spec fn spdx_terms(s: Seq<char>) -> Option<(Seq<Seq<char>>, Seq<Seq<char>>)>;

/// Relies on `spdx::Expression::parse` and `Expression::requirements`: the
/// outcome depends on the expression string alone; each requirement term
/// contributes the name of its SPDX license identifier, and the name of its
/// SPDX exception identifier when a `WITH` addition carries one.
#[verifier::external_body]
fn parse_spdx(s: &str) -> (r: Option<(Vec<String>, Vec<String>)>)
    ensures
        (r is Some) == (spdx_terms(s@) is Some),
        r matches Some(p) ==> spdx_terms(s@) == Some((p.0.deep_view(), p.1.deep_view())),
{
    let expr = match spdx::Expression::parse(s) {
        Ok(e) => e,
        Err(_) => return None,
    };
    let mut lics: Vec<String> = Vec::new();
    let mut excs: Vec<String> = Vec::new();
    for er in expr.requirements() {
        if let Some(id) = er.req.license.id() {
            lics.push(id.name.to_owned());
        }
        if let Some(ex) = er.req.addition.as_ref().and_then(|a| a.id()) {
            excs.push(ex.name.to_owned());
        }
    }
    Some((lics, excs))
}

/// No character of `s` is blank.
pub open spec fn all_nonblank(s: Seq<char>) -> bool {
    forall|i: int| 0 <= i < s.len() ==> !is_blank(#[trigger] s[i])
}

/// The tail of the legacy shape: trimmed, the word `WITH`, a blank, and one
/// further word.
pub open spec fn trailing_with(rest: Seq<char>) -> bool {
    let u = trim_seq(rest);
    &&& u.len() > 5
    &&& u.subrange(0, 4) == "WITH"@
    &&& is_blank(u[4])
    &&& trim_seq(u.skip(5)).len() > 0
    &&& all_nonblank(trim_seq(u.skip(5)))
}

/// The legacy shape the lenient collection is reserved for: a parenthesized
/// group of alternatives — the first closing parenthesis ends it and no
/// opening parenthesis nests inside — followed by `WITH` and one exception
/// word.
pub open spec fn group_with_shape(s: Seq<char>) -> bool {
    let t = trim_seq(s);
    let c = first_occurrence(t, ')');
    &&& t.len() > 0
    &&& t[0] == '('
    &&& c < t.len()
    &&& first_occurrence(t.subrange(1, c), '(') == c - 1
    &&& trailing_with(t.subrange(c + 1, t.len() as int))
}

/// Whether the string has the legacy parenthesized-`WITH` shape.
#[verifier::rlimit(50)]
fn is_group_with_shape(s: &str) -> (r: bool)
    ensures
        r == group_with_shape(s@),
{
    let cs = chars_of(s);
    proof {
        assert(cs@.subrange(0, cs@.len() as int) =~= cs@);
    }
    let tb = trim_range(&cs, 0, cs.len());
    let a = tb.0;
    let b = tb.1;
    let ghost t = trim_seq(s@);
    proof {
        assert(t == cs@.subrange(a as int, b as int));
    }
    if a == b || !(cs[a] == '(') {
        return false;
    }
    let mut c_abs: usize = a;
    while c_abs < b && !(cs[c_abs] == ')')
        invariant
            a <= c_abs <= b <= cs.len(),
            forall|j: int| a <= j < c_abs ==> cs@[j] != ')',
        decreases b - c_abs,
    {
        c_abs = c_abs + 1;
    }
    proof {
        assert forall|j: int| 0 <= j < c_abs - a implies t[j] != ')' by {
            assert(t[j] == cs@[a + j]);
        }
        if c_abs < b {
            assert(t[c_abs - a] == cs@[c_abs as int]);
        }
        lemma_first_occurrence_is(t, ')', c_abs - a);
    }
    if c_abs == b {
        return false;
    }
    let ghost c = c_abs - a;
    let mut i: usize = a + 1;
    while i < c_abs && !(cs[i] == '(')
        invariant
            a + 1 <= i <= c_abs <= cs.len(),
            forall|j: int| a + 1 <= j < i ==> cs@[j] != '(',
        decreases c_abs - i,
    {
        i = i + 1;
    }
    proof {
        let inner = t.subrange(1, c);
        assert(inner =~= cs@.subrange(a + 1, c_abs as int));
        assert forall|j: int| 0 <= j < i - a - 1 implies inner[j] != '(' by {
            assert(inner[j] == cs@[a + 1 + j]);
        }
        if i < c_abs {
            assert(inner[i - a - 1] == cs@[i as int]);
            lemma_first_occurrence_is(inner, '(', i - a - 1);
        } else {
            lemma_first_occurrence_is(inner, '(', inner.len() as int);
        }
    }
    if i < c_abs {
        return false;
    }
    proof {
        assert(t.subrange(c + 1, t.len() as int) =~= cs@.subrange(c_abs + 1, b as int));
    }
    let rb = trim_range(&cs, c_abs + 1, b);
    let u0 = rb.0;
    let u1 = rb.1;
    let ghost u = trim_seq(t.subrange(c + 1, t.len() as int));
    proof {
        assert(u == cs@.subrange(u0 as int, u1 as int));
    }
    if u1 - u0 <= 5 {
        return false;
    }
    proof {
        reveal_strlit("WITH");
    }
    if !(cs[u0] == 'W' && cs[u0 + 1] == 'I' && cs[u0 + 2] == 'T' && cs[u0 + 3] == 'H') {
        proof {
            assert(u.subrange(0, 4)[0] == cs@[u0 as int]);
            assert(u.subrange(0, 4)[1] == cs@[u0 + 1]);
            assert(u.subrange(0, 4)[2] == cs@[u0 + 2]);
            assert(u.subrange(0, 4)[3] == cs@[u0 + 3]);
        }
        return false;
    }
    proof {
        assert(u.subrange(0, 4) =~= "WITH"@);
    }
    if !blank_char(cs[u0 + 4]) {
        proof {
            assert(u[4] == cs@[u0 + 4]);
        }
        return false;
    }
    proof {
        assert(u.skip(5) =~= cs@.subrange(u0 + 5, u1 as int));
    }
    let wb = trim_range(&cs, u0 + 5, u1);
    let ghost w = trim_seq(u.skip(5));
    proof {
        assert(w == cs@.subrange(wb.0 as int, wb.1 as int));
    }
    if wb.0 == wb.1 {
        return false;
    }
    let mut p: usize = wb.0;
    while p < wb.1 && !blank_char(cs[p])
        invariant
            wb.0 <= p <= wb.1 <= cs.len(),
            forall|j: int| wb.0 <= j < p ==> !is_blank(cs@[j]),
        decreases wb.1 - p,
    {
        p = p + 1;
    }
    if p < wb.1 {
        proof {
            assert(w[p - wb.0] == cs@[p as int]);
            assert(!all_nonblank(w)) by {
                assert(is_blank(w[p - wb.0]));
            }
        }
        return false;
    }
    proof {
        assert forall|j: int| 0 <= j < w.len() implies !is_blank(#[trigger] w[j]) by {
            assert(w[j] == cs@[wb.0 + j]);
        }
    }
    true
}

/// What lenient collection makes of a license string: `None` when some
/// token is not SPDX vocabulary; otherwise the license identifiers and the
/// exception identifiers its tokens name, in token order.
pub uninterp spec fn spdx_token_terms(s: Seq<char>) -> Option<(Seq<Seq<char>>, Seq<Seq<char>>)>;

/// Relies on `spdx::lexer::Lexer`: tokenization depends on the string
/// alone; a license token carries its SPDX identifier and an exception
/// token its SPDX exception identifier.
#[verifier::external_body]
fn collect_spdx_tokens(s: &str) -> (r: Option<(Vec<String>, Vec<String>)>)
    ensures
        (r is Some) == (spdx_token_terms(s@) is Some),
        r matches Some(p) ==> spdx_token_terms(s@) == Some((p.0.deep_view(), p.1.deep_view())),
{
    let mut lics: Vec<String> = Vec::new();
    let mut excs: Vec<String> = Vec::new();
    for tok in spdx::lexer::Lexer::new(s) {
        match tok {
            Ok(t) => match t.token {
                spdx::lexer::Token::Spdx(id) => lics.push(id.name.to_owned()),
                spdx::lexer::Token::Exception(ex) => excs.push(ex.name.to_owned()),
                _ => {},
            },
            Err(_) => return None,
        }
    }
    Some((lics, excs))
}

/// The last-resort collection, reserved for the legacy parenthesized-`WITH`
/// shape, succeeds when the whole string is SPDX vocabulary and names at
/// least one license or exception.
pub open spec fn lenient_ok(s: Seq<char>) -> bool {
    match spdx_token_terms(s) {
        Some(t) => t.0.len() > 0 || t.1.len() > 0,
        None => false,
    }
}

/// The requirement terms the resolution strategy yields for `s`: those of
/// the standard grammar when it accepts `s`; else those of the slash
/// rewrite; else, only for the legacy parenthesized-`WITH` shape that the
/// standard grammar rejects, the identifiers named by the string's SPDX
/// tokens; `None` when every attempt fails.
pub open spec fn resolved_terms(s: Seq<char>) -> Option<(Seq<Seq<char>>, Seq<Seq<char>>)> {
    if spdx_terms(s) is Some {
        spdx_terms(s)
    } else if spdx_terms(slash_rewritten(s)) is Some {
        spdx_terms(slash_rewritten(s))
    } else if group_with_shape(s) && lenient_ok(s) {
        spdx_token_terms(s)
    } else {
        None
    }
}

/// Resolves a declared license string into sorted, deduplicated lists of
/// license identifiers and exception identifiers; `None` when the string
/// parses neither directly nor after the slash rewrite.
pub fn resolve_expression(s: &str) -> (r: Option<(Vec<String>, Vec<String>)>)
    ensures
        (r is Some) == (resolved_terms(s@) is Some),
        r matches Some(p) ==> (resolved_terms(s@) matches Some(t) && p.0.deep_view()
            == sort_dedup_spec(t.0) && p.1.deep_view() == sort_dedup_spec(t.1)),
{
    let terms = match parse_spdx(s) {
        Some(t) => t,
        None => {
            let rewritten = rewrite_slashes(s);
            match parse_spdx(rewritten.as_str()) {
                Some(t) => t,
                None => {
                    if !is_group_with_shape(s) {
                        return None;
                    }
                    match collect_spdx_tokens(s) {
                        Some(t) => {
                            if t.0.len() == 0 && t.1.len() == 0 {
                                return None;
                            }
                            t
                        },
                        None => {
                            return None;
                        },
                    }
                },
            }
        },
    };
    let licenses = sorted_dedup(&terms.0);
    let exceptions = sorted_dedup(&terms.1);
    Some((licenses, exceptions))
}

/// Resolution is deterministic and canonical: any two identifier-list pairs
/// that satisfy the resolver's contract for the same license string are
/// identical, and each list is sorted and free of duplicates.
pub proof fn lemma_resolution_deterministic(
    s: Seq<char>,
    r1: (Seq<Seq<char>>, Seq<Seq<char>>),
    r2: (Seq<Seq<char>>, Seq<Seq<char>>),
)
    requires
        resolved_terms(s) matches Some(t) && r1 == (sort_dedup_spec(t.0), sort_dedup_spec(t.1)),
        resolved_terms(s) matches Some(t) && r2 == (sort_dedup_spec(t.0), sort_dedup_spec(t.1)),
    ensures
        r1 == r2,
        strictly_sorted(r1.0) && strictly_sorted(r1.1),
        forall|i: int, j: int| 0 <= i < j < r1.0.len() ==> #[trigger] r1.0[i] != #[trigger] r1.0[j],
        forall|i: int, j: int| 0 <= i < j < r1.1.len() ==> #[trigger] r1.1[i] != #[trigger] r1.1[j],
{
    match resolved_terms(s) {
        Some(t) => {
            lemma_sort_dedup_spec(t.0);
            lemma_sort_dedup_spec(t.1);
        },
        None => {},
    }
    assert forall|i: int, j: int| 0 <= i < j < r1.0.len() implies #[trigger] r1.0[i]
        != #[trigger] r1.0[j] by {
        assert(lex_lt(r1.0[i], r1.0[j]));
    }
    assert forall|i: int, j: int| 0 <= i < j < r1.1.len() implies #[trigger] r1.1[i]
        != #[trigger] r1.1[j] by {
        assert(lex_lt(r1.1[i], r1.1[j]));
    }
}

} // verus!
