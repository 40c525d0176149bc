//! Copyright-notice scanning: candidate license files are recognized by
//! name, and each line of their text is tested for the shape of a copyright
//! notice. Scanning is best-effort: an entry whose content could not be read
//! as text contributes nothing.

use vstd::prelude::*;
use vstd::string::StrSliceExecFns;
use vstd::string::StringExecFns;

use crate::text::{
    chars_of, contains_digit_run, contains_str, contains_sub, first_occurrence, has_digit_run,
    lemma_first_occurrence_is, lemma_sort_dedup_spec, lex_lt, lower_chars, lower_seq,
    sort_dedup_spec, sorted_dedup, strictly_sorted, subvec, trim_range, trim_seq,
};

verus! {

/// One entry of a package's source directory, as handed to the scanner:
/// the entry's file name, whether it is a directory, and its text content
/// when it could be read as text.
#[derive(Clone, Debug)]
pub struct DirEntryData {
    /// The final component of the entry's path.
    pub name: String,
    /// Whether the entry is a directory.
    pub is_dir: bool,
    /// The entry's content; `None` when the entry could not be read as text.
    pub content: Option<String>,
}

/// The mathematical image of a directory entry.
#[verifier::ext_equal]
pub ghost struct DirEntryModel {
    pub name: Seq<char>,
    pub is_dir: bool,
    pub content: Option<Seq<char>>,
}

impl View for DirEntryData {
    type V = DirEntryModel;

    open spec fn view(&self) -> DirEntryModel {
        DirEntryModel {
            name: self.name@,
            is_dir: self.is_dir,
            content: match self.content {
                Some(c) => Some(c@),
                None => None,
            },
        }
    }
}

impl DeepView for DirEntryData {
    type V = DirEntryModel;

    open spec fn deep_view(&self) -> DirEntryModel {
        self.view()
    }
}

/// A candidate notice file: its lowercased name mentions `license` or
/// `copying`.
pub open spec fn spec_candidate_name(name: Seq<char>) -> bool {
    contains_sub(lower_seq(name), "license"@) || contains_sub(lower_seq(name), "copying"@)
}

/// Whether a file name marks a candidate notice file.
pub fn is_candidate_name(name: &str) -> (r: bool)
    ensures
        r == spec_candidate_name(name@),
{
    let cs = chars_of(name);
    let low = lower_chars(&cs);
    contains_str(&low, "license") || contains_str(&low, "copying")
}

/// A copyright notice line: trimmed and lowercased, it mentions `copyright`
/// together with `(c)`, the copyright sign, or a run of four or more digits.
pub open spec fn spec_notice_line(line: Seq<char>) -> bool {
    let low = lower_seq(trim_seq(line));
    contains_sub(low, "copyright"@) && (contains_sub(low, "(c)"@) || contains_sub(low, "\u{a9}"@)
        || has_digit_run(low, 4))
}

/// Whether the characters of one line qualify as a copyright notice.
pub fn is_notice_line(line: &Vec<char>) -> (r: bool)
    ensures
        r == spec_notice_line(line@),
{
    let bounds = trim_range(line, 0, line.len());
    proof {
        assert(line@.subrange(0, line@.len() as int) =~= line@);
    }
    let trimmed = subvec(line, bounds.0, bounds.1);
    let low = lower_chars(&trimmed);
    if !contains_str(&low, "copyright") {
        return false;
    }
    if contains_str(&low, "(c)") {
        return true;
    }
    if contains_str(&low, "\u{a9}") {
        return true;
    }
    contains_digit_run(&low, 4)
}

/// What one line contributes to the notice list: itself, trimmed, when it
/// qualifies; nothing otherwise.
pub open spec fn line_contrib(line: Seq<char>) -> Seq<Seq<char>> {
    if spec_notice_line(line) {
        seq![trim_seq(line)]
    } else {
        Seq::empty()
    }
}

/// The notices of a text, line by line, in order of appearance; lines are
/// separated by newline characters.
pub open spec fn notices_of_text(s: Seq<char>) -> Seq<Seq<char>>
    decreases s.len(),
{
    let i = first_occurrence(s, '\n');
    if 0 <= i && i < s.len() {
        line_contrib(s.subrange(0, i)) + notices_of_text(s.subrange(i + 1, s.len() as int))
    } else {
        line_contrib(s)
    }
}

/// One step of the line scan: with the line `[pos, i)` delimited on the
/// right by a newline or by the end, the notices of the suffix from `pos`
/// are that line's contribution followed by the notices after the newline.
proof fn lemma_line_step(s: Seq<char>, pos: int, i: int)
    requires
        0 <= pos <= i <= s.len(),
        forall|j: int| pos <= j < i ==> s[j] != '\n',
        i < s.len() ==> s[i] == '\n',
    ensures
        i < s.len() ==> notices_of_text(s.skip(pos)) == line_contrib(s.subrange(pos, i))
            + notices_of_text(s.skip(i + 1)),
        i == s.len() ==> notices_of_text(s.skip(pos)) == line_contrib(s.subrange(pos, i)),
{
    let t = s.skip(pos);
    assert forall|j: int| 0 <= j < i - pos implies t[j] != '\n' by {
        assert(s[pos + j] != '\n');
    }
    lemma_first_occurrence_is(t, '\n', i - pos);
    if i < s.len() {
        assert(t.subrange(0, i - pos) =~= s.subrange(pos, i));
        assert(t.subrange(i - pos + 1, t.len() as int) =~= s.skip(i + 1));
    } else {
        assert(t =~= s.subrange(pos, i));
    }
}

/// Every qualifying line of a text, trimmed, in order of appearance.
pub fn notices_in_text(content: &str) -> (r: Vec<String>)
    ensures
        r.deep_view() == notices_of_text(content@),
{
    let cs = chars_of(content);
    let mut out: Vec<String> = Vec::new();
    let mut pos: usize = 0;
    proof {
        assert(cs@.skip(0) =~= cs@);
        assert(out.deep_view() + notices_of_text(content@.skip(0)) =~= notices_of_text(
            content@,
        ));
    }
    loop
        invariant_except_break
            out.deep_view() + notices_of_text(content@.skip(pos as int)) == notices_of_text(
                content@,
            ),
        invariant
            pos <= cs.len(),
            cs@ == content@,
        ensures
            out.deep_view() == notices_of_text(content@),
        decreases cs.len() - pos,
    {
        let mut i: usize = pos;
        while i < cs.len() && !(cs[i] == '\n')
            invariant
                pos <= i <= cs.len(),
                forall|j: int| pos <= j < i ==> cs@[j] != '\n',
            decreases cs.len() - i,
        {
            i = i + 1;
        }
        proof {
            lemma_line_step(content@, pos as int, i as int);
        }
        let line = subvec(&cs, pos, i);
        let ghost pre_out = out.deep_view();
        let ghost rest = if i < cs.len() {
            notices_of_text(content@.skip(i + 1))
        } else {
            Seq::<Seq<char>>::empty()
        };
        if is_notice_line(&line) {
            let bounds = trim_range(&cs, pos, i);
            let piece = content.substring_char(bounds.0, bounds.1);
            let owned = String::from_str(piece);
            out.push(owned);
            proof {
                assert(trim_seq(content@.subrange(pos as int, i as int)) == piece@);
                assert(line_contrib(content@.subrange(pos as int, i as int)) =~= seq![piece@]);
                assert(out.deep_view() =~= pre_out.push(piece@));
                assert(out.deep_view() + rest =~= pre_out + (seq![piece@] + rest));
            }
        } else {
            proof {
                assert(line_contrib(content@.subrange(pos as int, i as int)) =~= Seq::<
                    Seq<char>,
                >::empty());
                assert(out.deep_view() + rest =~= pre_out + (Seq::<Seq<char>>::empty() + rest));
            }
        }
        if i < cs.len() {
            pos = i + 1;
        } else {
            proof {
                assert(out.deep_view() =~= out.deep_view() + rest);
                assert(out.deep_view() == notices_of_text(content@));
            }
            break ;
        }
    }
    out
}

/// What one directory entry contributes to the notice scan: the notices of
/// its text when it is a readable candidate file, nothing otherwise.
pub open spec fn entry_notices(e: DirEntryModel) -> Seq<Seq<char>> {
    if e.is_dir || !spec_candidate_name(e.name) {
        Seq::empty()
    } else {
        match e.content {
            Some(c) => notices_of_text(c),
            None => Seq::empty(),
        }
    }
}

/// The notices of a whole directory listing, in entry order.
pub open spec fn dir_notices(entries: Seq<DirEntryModel>) -> Seq<Seq<char>>
    decreases entries.len(),
{
    if entries.len() == 0 {
        Seq::empty()
    } else {
        entry_notices(entries[0]) + dir_notices(entries.drop_first())
    }
}

/// Appending one entry appends its contribution.
proof fn lemma_dir_notices_push(entries: Seq<DirEntryModel>, e: DirEntryModel)
    ensures
        dir_notices(entries.push(e)) == dir_notices(entries) + entry_notices(e),
    decreases entries.len(),
{
    if entries.len() == 0 {
        assert(entries.push(e).drop_first() =~= entries);
        assert(dir_notices(entries) + entry_notices(e) =~= entry_notices(e));
        assert(entry_notices(e) + dir_notices(entries) =~= entry_notices(e));
    } else {
        assert(entries.push(e).drop_first() =~= entries.drop_first().push(e));
        lemma_dir_notices_push(entries.drop_first(), e);
        assert(dir_notices(entries.push(e)) =~= dir_notices(entries) + entry_notices(e));
    }
}

/// Scans a directory listing for copyright notices. Candidate files are
/// those whose lowercased name mentions `license` or `copying`; every
/// qualifying line of their readable contents is kept, trimmed; the result
/// is sorted and holds no duplicates.
pub fn scan_notices(entries: &Vec<DirEntryData>) -> (r: Vec<String>)
    ensures
        r.deep_view() == sort_dedup_spec(dir_notices(entries.deep_view())),
        strictly_sorted(r.deep_view()),
        forall|t: Seq<char>|
            #[trigger] r.deep_view().contains(t) <==> dir_notices(entries.deep_view()).contains(t),
{
    let mut collected: Vec<String> = Vec::new();
    let mut k: usize = 0;
    proof {
        assert(entries.deep_view().subrange(0, 0) =~= Seq::<DirEntryModel>::empty());
        assert(collected.deep_view() =~= dir_notices(entries.deep_view().subrange(0, 0)));
    }
    while k < entries.len()
        invariant
            k <= entries.len(),
            collected.deep_view() == dir_notices(entries.deep_view().subrange(0, k as int)),
        decreases entries.len() - k,
    {
        let entry = &entries[k];
        let ghost pre = collected.deep_view();
        if !entry.is_dir && is_candidate_name(entry.name.as_str()) {
            match &entry.content {
                Some(content) => {
                    let mut found = notices_in_text(content.as_str());
                    proof {
                        assert(found.deep_view() == entry_notices(entries.deep_view()[k as int]));
                    }
                    collected.append(&mut found);
                    proof {
                        assert(collected.deep_view() =~= pre + entry_notices(
                            entries.deep_view()[k as int],
                        ));
                    }
                },
                None => {
                    proof {
                        assert(entry_notices(entries.deep_view()[k as int]) =~= Seq::<
                            Seq<char>,
                        >::empty());
                        assert(collected.deep_view() =~= pre + entry_notices(
                            entries.deep_view()[k as int],
                        ));
                    }
                },
            }
        } else {
            proof {
                assert(entry_notices(entries.deep_view()[k as int]) =~= Seq::<Seq<char>>::empty());
                assert(collected.deep_view() =~= pre + entry_notices(
                    entries.deep_view()[k as int],
                ));
            }
        }
        proof {
            let pref = entries.deep_view().subrange(0, k as int);
            assert(entries.deep_view().subrange(0, k + 1) =~= pref.push(
                entries.deep_view()[k as int],
            ));
            lemma_dir_notices_push(pref, entries.deep_view()[k as int]);
        }
        k = k + 1;
    }
    proof {
        assert(entries.deep_view().subrange(0, entries.deep_view().len() as int)
            =~= entries.deep_view());
    }
    sorted_dedup(&collected)
}

/// The lines of a text, split on newline characters.
pub open spec fn lines_of(s: Seq<char>) -> Seq<Seq<char>>
    decreases s.len(),
{
    let i = first_occurrence(s, '\n');
    if 0 <= i && i < s.len() {
        seq![s.subrange(0, i)] + lines_of(s.subrange(i + 1, s.len() as int))
    } else {
        seq![s]
    }
}

/// Membership in a text's notices, line by line: a string is among them
/// exactly when it is the trimmed form of some qualifying line.
proof fn lemma_notices_text_membership(s: Seq<char>, t: Seq<char>)
    ensures
        notices_of_text(s).contains(t) <==> exists|k: int|
            0 <= k < lines_of(s).len() && spec_notice_line(#[trigger] lines_of(s)[k]) && t
                == trim_seq(lines_of(s)[k]),
    decreases s.len(),
{
    let i = first_occurrence(s, '\n');
    if 0 <= i && i < s.len() {
        let head = s.subrange(0, i);
        let rest = s.subrange(i + 1, s.len() as int);
        lemma_notices_text_membership(rest, t);
        let hc = line_contrib(head);
        let nr = notices_of_text(rest);
        if notices_of_text(s).contains(t) {
            let p = choose|p: int| 0 <= p < (hc + nr).len() && (hc + nr)[p] == t;
            if p < hc.len() {
                assert(spec_notice_line(head) && t == trim_seq(head));
                assert(lines_of(s)[0] == head);
            } else {
                assert(nr[p - hc.len()] == t);
                assert(nr.contains(t));
                let k = choose|k: int|
                    0 <= k < lines_of(rest).len() && spec_notice_line(#[trigger] lines_of(rest)[k])
                        && t == trim_seq(lines_of(rest)[k]);
                assert(lines_of(s)[k + 1] == lines_of(rest)[k]);
            }
        }
        if exists|k: int|
            0 <= k < lines_of(s).len() && spec_notice_line(#[trigger] lines_of(s)[k]) && t
                == trim_seq(lines_of(s)[k]) {
            let k = choose|k: int|
                0 <= k < lines_of(s).len() && spec_notice_line(#[trigger] lines_of(s)[k]) && t
                    == trim_seq(lines_of(s)[k]);
            if k == 0 {
                assert(lines_of(s)[0] == head);
                assert(hc[0] == t);
                assert((hc + nr)[0] == t);
            } else {
                assert(lines_of(s)[k] == lines_of(rest)[k - 1]);
                assert(nr.contains(t));
                let q = choose|q: int| 0 <= q < nr.len() && nr[q] == t;
                assert((hc + nr)[hc.len() + q] == t);
            }
        }
    } else {
        if notices_of_text(s).contains(t) {
            assert(line_contrib(s)[0] == t);
            assert(lines_of(s)[0] == s);
        }
        if exists|k: int|
            0 <= k < lines_of(s).len() && spec_notice_line(#[trigger] lines_of(s)[k]) && t
                == trim_seq(lines_of(s)[k]) {
            assert(lines_of(s)[0] == s);
            assert(line_contrib(s)[0] == t);
        }
    }
}

/// Membership in a directory's notices: some entry contributes the string.
proof fn lemma_dir_notices_membership(entries: Seq<DirEntryModel>, t: Seq<char>)
    ensures
        dir_notices(entries).contains(t) <==> exists|k: int|
            0 <= k < entries.len() && #[trigger] entry_notices(entries[k]).contains(t),
    decreases entries.len(),
{
    if entries.len() != 0 {
        lemma_dir_notices_membership(entries.drop_first(), t);
        let head = entry_notices(entries[0]);
        let tail = dir_notices(entries.drop_first());
        if dir_notices(entries).contains(t) {
            let p = choose|p: int| 0 <= p < (head + tail).len() && (head + tail)[p] == t;
            if p < head.len() {
                assert(head[p] == t);
                assert(entry_notices(entries[0]).contains(t));
            } else {
                assert(tail[p - head.len()] == t);
                assert(tail.contains(t));
                let k = choose|k: int|
                    0 <= k < entries.drop_first().len() && #[trigger] entry_notices(
                        entries.drop_first()[k],
                    ).contains(t);
                assert(entries.drop_first()[k] == entries[k + 1]);
                assert(entry_notices(entries[k + 1]).contains(t));
            }
        }
        if exists|k: int| 0 <= k < entries.len() && #[trigger] entry_notices(
            entries[k],
        ).contains(t) {
            let k = choose|k: int|
                0 <= k < entries.len() && #[trigger] entry_notices(entries[k]).contains(t);
            if k == 0 {
                let q = choose|q: int| 0 <= q < head.len() && head[q] == t;
                assert((head + tail)[q] == t);
            } else {
                assert(entries.drop_first()[k - 1] == entries[k]);
                assert(entry_notices(entries.drop_first()[k - 1]).contains(t));
                assert(tail.contains(t));
                let q = choose|q: int| 0 <= q < tail.len() && tail[q] == t;
                assert((head + tail)[head.len() + q] == t);
            }
        }
    }
}

/// The entry is a readable candidate file and some qualifying line of its
/// text trims to `t`.
pub open spec fn entry_has_notice_line(e: DirEntryModel, t: Seq<char>) -> bool {
    &&& !e.is_dir
    &&& spec_candidate_name(e.name)
    &&& e.content matches Some(c) && (exists|k: int|
        0 <= k < lines_of(c).len() && spec_notice_line(#[trigger] lines_of(c)[k]) && t
            == trim_seq(lines_of(c)[k]))
}

/// What the scan yields, member by member: a string stands among the
/// notices exactly when some readable candidate file holds a qualifying
/// line whose trimmed form it is. In particular, a line that lacks `(c)`,
/// the copyright sign and a four-digit run near `copyright` contributes
/// nothing, and the notices of unreadable files, directories and files
/// whose name mentions neither `license` nor `copying` are never reported.
pub proof fn lemma_scan_membership(entries: Seq<DirEntryModel>, t: Seq<char>)
    ensures
        sort_dedup_spec(dir_notices(entries)).contains(t) <==> exists|k: int|
            0 <= k < entries.len() && entry_has_notice_line(#[trigger] entries[k], t),
{
    lemma_sort_dedup_spec(dir_notices(entries));
    lemma_dir_notices_membership(entries, t);
    assert forall|k: int| 0 <= k < entries.len() implies (#[trigger] entry_notices(
        entries[k],
    ).contains(t) <==> entry_has_notice_line(entries[k], t)) by {
        let e = entries[k];
        if e.is_dir || !spec_candidate_name(e.name) {
            assert(!entry_notices(e).contains(t));
        } else {
            match e.content {
                Some(c) => {
                    lemma_notices_text_membership(c, t);
                },
                None => {
                    assert(!entry_notices(e).contains(t));
                },
            }
        }
    }
    if exists|k: int| 0 <= k < entries.len() && #[trigger] entry_notices(entries[k]).contains(t) {
        let k = choose|k: int|
            0 <= k < entries.len() && #[trigger] entry_notices(entries[k]).contains(t);
        assert(entry_has_notice_line(entries[k], t));
    }
    if exists|k: int| 0 <= k < entries.len() && entry_has_notice_line(#[trigger] entries[k], t) {
        let k = choose|k: int|
            0 <= k < entries.len() && entry_has_notice_line(#[trigger] entries[k], t);
        assert(entry_notices(entries[k]).contains(t));
    }
}

/// The scan never repeats an entry: a notice line shared by several files,
/// or found several times in one, stands in the result once.
pub proof fn lemma_scan_notices_distinct(entries: Seq<DirEntryModel>)
    ensures
        forall|i: int, j: int|
            0 <= i < j < sort_dedup_spec(dir_notices(entries)).len() ==> #[trigger] sort_dedup_spec(
                dir_notices(entries),
            )[i] != #[trigger] sort_dedup_spec(dir_notices(entries))[j],
{
    lemma_sort_dedup_spec(dir_notices(entries));
    let r = sort_dedup_spec(dir_notices(entries));
    assert forall|i: int, j: int| 0 <= i < j < r.len() implies #[trigger] r[i] != #[trigger] r[j] by {
        assert(lex_lt(r[i], r[j]));
    }
}

} // verus!
