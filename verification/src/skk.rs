//! The SKK dialect: entries grouped by reading into records, candidates
//! escaped where the headword holds one of the four characters that the
//! line format reserves, and one rendered line per record.

use vstd::prelude::*;

use crate::dictionary::DictionaryEntry;
use crate::dictionary::DictionaryEntryKind;
use crate::dictionary::EmitDictionary;
use crate::dictionary::EntryModel;
use crate::dictionary::entry_views;
use crate::numeral::int_digits;
use crate::numeral::i32_decimal;
use crate::order::lemma_lex_trichotomy;
use crate::order::lex_lt;
use crate::order::str_lt;

verus! {

/// An SKK record: one reading with all its candidate headwords, each
/// paired with the kind it came from.
#[derive(Debug)]
pub struct SkkDictionaryEntry {
    pub reading: String,
    pub entries: Vec<(String, DictionaryEntryKind)>,
}

/// Model of an `SkkDictionaryEntry`.
#[verifier::ext_equal]
pub ghost struct SkkModel {
    pub reading: Seq<char>,
    pub entries: Seq<(Seq<char>, DictionaryEntryKind)>,
}

impl View for SkkDictionaryEntry {
    type V = SkkModel;

    open spec fn view(&self) -> SkkModel {
        SkkModel {
            reading: self.reading@,
            entries: Seq::new(
                self.entries@.len(),
                |i: int| (self.entries@[i].0@, self.entries@[i].1),
            ),
        }
    }
}

/// The models of a sequence of SKK records.
pub open spec fn skk_views(s: Seq<SkkDictionaryEntry>) -> Seq<SkkModel> {
    Seq::new(s.len(), |i: int| s[i]@)
}

/// The candidate an entry contributes to its reading's record.
pub open spec fn candidate_of(e: EntryModel) -> (Seq<char>, DictionaryEntryKind) {
    (e.entry, e.kind)
}

/// Whether a character is one of the four that the SKK line format
/// reserves, so that a headword holding it must be escaped.
pub open spec fn is_special(c: char) -> bool {
    c == '\\' || c == '"' || c == '/' || c == ';'
}

/// Whether a headword needs the escaped form.
pub open spec fn needs_escape(s: Seq<char>) -> bool {
    exists|i: int| 0 <= i < s.len() && is_special(s[i])
}

/// The escaped form of one character: backslash and quote are
/// backslash-escaped, slash and semicolon become octal escapes, and any
/// other character stands as it is.
pub open spec fn escape_char(c: char) -> Seq<char> {
    if c == '\\' {
        "\\\\"@
    } else if c == '"' {
        "\\\""@
    } else if c == '/' {
        "\\057"@
    } else if c == ';' {
        "\\059"@
    } else {
        seq![c]
    }
}

/// The body of the escaped form: every character escaped, in order.
pub open spec fn escape_body(s: Seq<char>) -> Seq<char>
    decreases s.len(),
{
    if s.len() == 0 {
        Seq::empty()
    } else {
        escape_body(s.drop_last()) + escape_char(s.last())
    }
}

/// The rendered form of a headword: wrapped as a concat literal with its
/// characters escaped when it holds a reserved character, verbatim
/// otherwise.
pub open spec fn skk_escape(s: Seq<char>) -> Seq<char> {
    if needs_escape(s) {
        "(concat \""@ + escape_body(s) + "\")"@
    } else {
        s
    }
}

/// Scanning one more character finds a reserved character exactly when one
/// was already found or the new character is reserved.
proof fn lemma_needs_escape_step(s: Seq<char>, i: int)
    requires
        0 <= i < s.len(),
    ensures
        needs_escape(s.take(i + 1)) == (needs_escape(s.take(i)) || is_special(s[i])),
{
    let a = s.take(i);
    let b = s.take(i + 1);
    if needs_escape(a) {
        let j = choose|j: int| 0 <= j < a.len() && is_special(a[j]);
        assert(b[j] == s[j]);
    }
    if is_special(s[i]) {
        assert(b[i] == s[i]);
    }
    if needs_escape(b) {
        let j = choose|j: int| 0 <= j < b.len() && is_special(b[j]);
        if j < i {
            assert(a[j] == s[j]);
        }
    }
}

/// Escaping one more character appends its escaped form.
proof fn lemma_escape_body_step(s: Seq<char>, i: int)
    requires
        0 <= i < s.len(),
    ensures
        escape_body(s.take(i + 1)) == escape_body(s.take(i)) + escape_char(s[i]),
{
    assert(s.take(i + 1).drop_last() =~= s.take(i));
    assert(s.take(i + 1).last() == s[i]);
}

/// Files one entry into the records: appended to the candidates of its
/// reading's record when one exists, otherwise opening a new record at the
/// reading's sorted position.
pub open spec fn skk_insert(rs: Seq<SkkModel>, e: EntryModel) -> Seq<SkkModel>
    decreases rs.len(),
{
    if rs.len() == 0 {
        seq![SkkModel { reading: e.reading, entries: seq![candidate_of(e)] }]
    } else if e.reading == rs[0].reading {
        seq![SkkModel { reading: rs[0].reading, entries: rs[0].entries.push(candidate_of(e)) }]
            + rs.skip(1)
    } else if lex_lt(e.reading, rs[0].reading) {
        seq![SkkModel { reading: e.reading, entries: seq![candidate_of(e)] }] + rs
    } else {
        seq![rs[0]] + skk_insert(rs.skip(1), e)
    }
}

/// Groups entries by reading, taking them in order: candidates keep entry
/// order within a record, records stand sorted by reading.
pub open spec fn skk_group(entries: Seq<EntryModel>) -> Seq<SkkModel>
    decreases entries.len(),
{
    if entries.len() == 0 {
        Seq::empty()
    } else {
        skk_insert(skk_group(entries.drop_last()), entries.last())
    }
}

/// The records' readings strictly increase, so each reading has one record.
pub open spec fn readings_sorted(rs: Seq<SkkModel>) -> bool {
    forall|i: int| 0 <= i < rs.len() - 1 ==> lex_lt(rs[i].reading, #[trigger] rs[i + 1].reading)
}

/// Filing an entry keeps the records sorted by reading.
proof fn lemma_skk_insert_sorted(rs: Seq<SkkModel>, e: EntryModel)
    requires
        readings_sorted(rs),
    ensures
        readings_sorted(skk_insert(rs, e)),
    decreases rs.len(),
{
    let r = skk_insert(rs, e);
    if rs.len() == 0 {
    } else if e.reading == rs[0].reading {
        assert(r.len() == rs.len());
        assert forall|i: int| 0 <= i < r.len() - 1 implies lex_lt(
            r[i].reading,
            #[trigger] r[i + 1].reading,
        ) by {
            assert(r[i + 1] == rs.skip(1)[i]);
            assert(rs.skip(1)[i] == rs[i + 1]);
            if i > 0 {
                assert(r[i] == rs.skip(1)[i - 1]);
                assert(rs.skip(1)[i - 1] == rs[i]);
            }
            assert(lex_lt(rs[i].reading, rs[i + 1].reading));
        }
    } else if lex_lt(e.reading, rs[0].reading) {
        assert forall|i: int| 0 <= i < r.len() - 1 implies lex_lt(
            r[i].reading,
            #[trigger] r[i + 1].reading,
        ) by {
            if i == 0 {
                assert(r[0].reading == e.reading);
                assert(r[1] == rs[0]);
            } else {
                assert(r[i] == rs[i - 1]);
                assert(r[i + 1] == rs[i]);
                assert(lex_lt(rs[i - 1].reading, rs[i - 1 + 1].reading));
            }
        }
    } else {
        lemma_lex_trichotomy(e.reading, rs[0].reading);
        let tail = rs.skip(1);
        assert(readings_sorted(tail)) by {
            assert(forall|k: int|
                0 <= k < tail.len() - 1 ==> tail[k] == rs[k + 1] && #[trigger] tail[k + 1]
                    == rs[k + 2]);
        }
        lemma_skk_insert_sorted(tail, e);
        let rt = skk_insert(tail, e);
        assert(r =~= seq![rs[0]] + rt);
        assert(rt.len() > 0);
        assert(rt[0].reading == e.reading || (tail.len() > 0 && rt[0] == tail[0])) by {
            if tail.len() == 0 {
            } else if e.reading == tail[0].reading {
            } else if lex_lt(e.reading, tail[0].reading) {
            } else {
            }
        }
        if tail.len() > 0 {
            let zero: int = 0;
            assert(lex_lt(rs[zero].reading, rs[zero + 1].reading));
        }
        assert(lex_lt(rs[0].reading, rt[0].reading));
        assert(readings_sorted(r)) by {
            assert(forall|i: int| 0 <= i < rt.len() ==> r[i + 1] == #[trigger] rt[i]);
            assert(forall|i: int|
                1 <= i < r.len() - 1 ==> #[trigger] r[i] == rt[i - 1] && r[i + 1] == rt[i]);
            assert(r[0] == rs[0] && r[1] == rt[0]);
        }
    }
}

/// The grouped records always stand sorted by reading, so each reading
/// appears in exactly one record.
pub proof fn lemma_skk_group_sorted(entries: Seq<EntryModel>)
    ensures
        readings_sorted(skk_group(entries)),
    decreases entries.len(),
{
    if entries.len() > 0 {
        lemma_skk_group_sorted(entries.drop_last());
        lemma_skk_insert_sorted(skk_group(entries.drop_last()), entries.last());
    }
}

/// Where the scan for an entry's reading stops, `skk_insert` extends that
/// record's candidates, or opens a new record there.
proof fn lemma_skk_insert_split(rs: Seq<SkkModel>, e: EntryModel, i: int)
    requires
        readings_sorted(rs),
        0 <= i <= rs.len(),
        forall|j: int| 0 <= j < i ==> lex_lt((#[trigger] rs[j]).reading, e.reading),
        i < rs.len() ==> !lex_lt(rs[i].reading, e.reading),
    ensures
        i < rs.len() && rs[i].reading == e.reading ==> skk_insert(rs, e) == rs.update(
            i,
            SkkModel { reading: rs[i].reading, entries: rs[i].entries.push(candidate_of(e)) },
        ),
        !(i < rs.len() && rs[i].reading == e.reading) ==> skk_insert(rs, e) == rs.take(i) + seq![
            SkkModel { reading: e.reading, entries: seq![candidate_of(e)] },
        ] + rs.skip(i),
    decreases rs.len(),
{
    if rs.len() == 0 {
        assert(skk_insert(rs, e) =~= rs.take(0) + seq![
            SkkModel { reading: e.reading, entries: seq![candidate_of(e)] },
        ] + rs.skip(0));
    } else {
        lemma_lex_trichotomy(e.reading, rs[0].reading);
        if e.reading == rs[0].reading {
            assert(i == 0);
            assert(skk_insert(rs, e) =~= rs.update(
                0,
                SkkModel { reading: rs[0].reading, entries: rs[0].entries.push(candidate_of(e)) },
            ));
        } else if lex_lt(e.reading, rs[0].reading) {
            assert(i == 0);
            assert(skk_insert(rs, e) =~= rs.take(0) + seq![
                SkkModel { reading: e.reading, entries: seq![candidate_of(e)] },
            ] + rs.skip(0));
        } else {
            assert(i >= 1);
            let tail = rs.skip(1);
            assert(readings_sorted(tail)) by {
                assert(forall|k: int|
                    0 <= k < tail.len() - 1 ==> tail[k] == rs[k + 1] && #[trigger] tail[k + 1]
                        == rs[k + 2]);
            }
            assert(forall|j: int| 0 <= j < i - 1 ==> lex_lt((#[trigger] tail[j]).reading, e.reading))
                by {
                assert(forall|j: int| 0 <= j < i - 1 ==> #[trigger] tail[j] == rs[j + 1]);
            }
            assert(i - 1 < tail.len() ==> !lex_lt(tail[i - 1].reading, e.reading));
            lemma_skk_insert_split(tail, e, i - 1);
            if i < rs.len() && rs[i].reading == e.reading {
                assert(tail[i - 1] == rs[i]);
                assert(skk_insert(rs, e) =~= rs.update(
                    i,
                    SkkModel {
                        reading: rs[i].reading,
                        entries: rs[i].entries.push(candidate_of(e)),
                    },
                ));
            } else {
                assert(!(i - 1 < tail.len() && tail[i - 1].reading == e.reading)) by {
                    if i < rs.len() {
                        assert(tail[i - 1] == rs[i]);
                    }
                }
                assert(skk_insert(rs, e) =~= rs.take(i) + seq![
                    SkkModel { reading: e.reading, entries: seq![candidate_of(e)] },
                ] + rs.skip(i));
            }
        }
    }
}

/// Extending the grouped prefix by one entry files that entry.
proof fn lemma_skk_group_push(s: Seq<EntryModel>, e: EntryModel)
    ensures
        skk_group(s.push(e)) == skk_insert(skk_group(s), e),
{
    assert(s.push(e).drop_last() =~= s);
    assert(s.push(e).last() == e);
}

impl EmitDictionary for SkkDictionaryEntry {
    /// The emitted records are exactly the entries grouped by reading.
    open spec fn emit_model(entries: Seq<EntryModel>, out: Seq<SkkDictionaryEntry>) -> bool {
        skk_views(out) == skk_group(entries)
    }

    #[verifier::loop_isolation(false)]
    fn emit(entries: &Vec<DictionaryEntry>) -> (result: Vec<SkkDictionaryEntry>) {
        let ghost ms = entry_views(entries@);
        let mut result: Vec<SkkDictionaryEntry> = Vec::new();
        let mut k: usize = 0;
        assert(skk_views(result@) =~= skk_group(ms.take(0)));
        while k < entries.len()
            invariant
                k <= entries@.len(),
                ms == entry_views(entries@),
                result@.len() <= k,
                skk_views(result@) == skk_group(ms.take(k as int)),
                readings_sorted(skk_views(result@)),
            decreases entries@.len() - k,
        {
            let e = &entries[k];
            let ghost em = ms[k as int];
            let ghost rs = skk_views(result@);
            // Scan for the position of this entry's reading.
            let mut i: usize = 0;
            while i < result.len() && str_lt(result[i].reading.as_str(), e.reading.as_str())
                invariant
                    i <= result@.len(),
                    forall|j: int| 0 <= j < i ==> lex_lt((#[trigger] rs[j]).reading, em.reading),
                decreases result@.len() - i,
            {
                assert(result@[i as int]@ == rs[i as int]);
                i = i + 1;
            }
            assert(i < result@.len() ==> !lex_lt(rs[i as int].reading, em.reading)) by {
                if i < result@.len() {
                    assert(result@[i as int]@ == rs[i as int]);
                }
            }
            proof {
                lemma_skk_insert_split(rs, em, i as int);
                lemma_skk_insert_sorted(rs, em);
                lemma_skk_group_push(ms.take(k as int), em);
                assert(ms.take(k + 1) =~= ms.take(k as int).push(em));
            }
            let same = i < result.len() && result[i].reading == e.reading;
            if same {
                let mut rec = result.remove(i);
                rec.entries.push((e.entry.clone(), e.kind));
                result.insert(i, rec);
                proof {
                    let updated = SkkModel {
                        reading: rs[i as int].reading,
                        entries: rs[i as int].entries.push(candidate_of(em)),
                    };
                    assert(result@[i as int]@ =~= updated);
                    assert(skk_views(result@) =~= rs.update(i as int, updated));
                }
            } else {
                let mut cands: Vec<(String, DictionaryEntryKind)> = Vec::new();
                cands.push((e.entry.clone(), e.kind));
                let rec = SkkDictionaryEntry { reading: e.reading.clone(), entries: cands };
                proof {
                    assert(rec@ =~= SkkModel {
                        reading: em.reading,
                        entries: seq![candidate_of(em)],
                    });
                }
                result.insert(i, rec);
                proof {
                    assert(skk_views(result@) =~= rs.take(i as int) + seq![
                        SkkModel { reading: em.reading, entries: seq![candidate_of(em)] },
                    ] + rs.skip(i as int));
                }
            }
            k = k + 1;
        }
        assert(ms.take(ms.len() as int) =~= ms);
        result
    }
}

impl SkkDictionaryEntry {
    /// Renders a headword for an SKK candidate position, escaping it when
    /// it holds a reserved character.
    pub fn escape(text: &str) -> (r: String)
        ensures
            r@ == skk_escape(text@),
    {
        let n = text.unicode_len();
        let mut found = false;
        let mut i: usize = 0;
        assert(text@.take(0) =~= Seq::<char>::empty());
        while i < n
            invariant
                i <= n,
                n == text@.len(),
                found == needs_escape(text@.take(i as int)),
            decreases n - i,
        {
            let c = text.get_char(i);
            if c == '\\' || c == '"' || c == '/' || c == ';' {
                found = true;
            }
            proof {
                lemma_needs_escape_step(text@, i as int);
            }
            i = i + 1;
        }
        assert(text@.take(n as int) =~= text@);
        if !found {
            return String::from_str(text);
        }
        let mut r = String::from_str("(concat \"");
        let mut i: usize = 0;
        assert(escape_body(text@.take(0)) =~= Seq::<char>::empty());
        assert(r@ =~= ("(concat \"")@ + escape_body(text@.take(0)));
        while i < n
            invariant
                i <= n,
                n == text@.len(),
                needs_escape(text@),
                r@ == ("(concat \"")@ + escape_body(text@.take(i as int)),
            decreases n - i,
        {
            let c = text.get_char(i);
            if c == '\\' {
                r.append("\\\\");
            } else if c == '"' {
                r.append("\\\"");
            } else if c == '/' {
                r.append("\\057");
            } else if c == ';' {
                r.append("\\059");
            } else {
                let piece = text.substring_char(i, i + 1);
                assert(piece@ =~= seq![c]);
                r.append(piece);
            }
            proof {
                lemma_escape_body_step(text@, i as int);
                assert(r@ =~= ("(concat \"")@ + escape_body(text@.take(i + 1)));
            }
            i = i + 1;
        }
        r.append("\")");
        assert(r@ =~= skk_escape(text@));
        r
    }
}

/// The category label shown beside a candidate, fixed per kind; chapter
/// entries name their section and chapter numbers.
pub open spec fn kind_label(k: DictionaryEntryKind) -> Seq<char> {
    match k {
        DictionaryEntryKind::Chapter(sec, cha) => "第"@ + int_digits(sec as int) + "章チャプター"@
            + int_digits(cha as int),
        DictionaryEntryKind::Character => "キャラクター"@,
        DictionaryEntryKind::VoiceActor => "声優"@,
        DictionaryEntryKind::Unit => "ユニット"@,
        DictionaryEntryKind::Song => "楽曲"@,
        DictionaryEntryKind::Composer => "アーティスト"@,
    }
}

/// The category label of a kind, as a string.
fn kind_label_exec(k: DictionaryEntryKind) -> (r: String)
    ensures
        r@ == kind_label(k),
{
    match k {
        DictionaryEntryKind::Chapter(sec, cha) => {
            let mut r = String::from_str("第");
            let sec_digits = i32_decimal(sec);
            r.append(sec_digits.as_str());
            r.append("章チャプター");
            let cha_digits = i32_decimal(cha);
            r.append(cha_digits.as_str());
            assert(r@ =~= kind_label(k));
            r
        },
        DictionaryEntryKind::Character => String::from_str("キャラクター"),
        DictionaryEntryKind::VoiceActor => String::from_str("声優"),
        DictionaryEntryKind::Unit => String::from_str("ユニット"),
        DictionaryEntryKind::Song => String::from_str("楽曲"),
        DictionaryEntryKind::Composer => String::from_str("アーティスト"),
    }
}

/// The rendered form of one candidate: the escaped headword, then the
/// product tag and the category label.
pub open spec fn candidate_render(c: (Seq<char>, DictionaryEntryKind)) -> Seq<char> {
    skk_escape(c.0) + ";[オンゲキ] "@ + kind_label(c.1)
}

/// All candidates rendered and joined with slashes.
pub open spec fn candidates_join(cs: Seq<(Seq<char>, DictionaryEntryKind)>) -> Seq<char>
    decreases cs.len(),
{
    if cs.len() == 0 {
        Seq::empty()
    } else if cs.len() == 1 {
        candidate_render(cs[0])
    } else {
        candidates_join(cs.drop_last()) + "/"@ + candidate_render(cs.last())
    }
}

/// The rendered line of an SKK record: the reading, then every candidate
/// between slashes.
pub open spec fn skk_line(m: SkkModel) -> Seq<char> {
    m.reading + " /"@ + candidates_join(m.entries) + "/"@
}

/// Rendering one more candidate appends a separator (after the first) and
/// its rendered form.
proof fn lemma_candidates_join_step(cs: Seq<(Seq<char>, DictionaryEntryKind)>, k: int)
    requires
        0 <= k < cs.len(),
    ensures
        k == 0 ==> candidates_join(cs.take(1)) == candidate_render(cs[0]),
        k > 0 ==> candidates_join(cs.take(k + 1)) == candidates_join(cs.take(k)) + "/"@
            + candidate_render(cs[k]),
{
    assert(cs.take(k + 1).drop_last() =~= cs.take(k));
    assert(cs.take(k + 1).last() == cs[k]);
    if k == 0 {
        assert(cs.take(1)[0] == cs[0]);
    }
}

impl SkkDictionaryEntry {
    /// Renders the record as its dictionary line, without the line break.
    #[verifier::loop_isolation(false)]
    pub fn render(&self) -> (r: String)
        ensures
            r@ == skk_line(self@),
    {
        let ghost cs = self@.entries;
        let mut r = self.reading.clone();
        r.append(" /");
        let mut k: usize = 0;
        assert(cs.take(0) =~= Seq::<(Seq<char>, DictionaryEntryKind)>::empty());
        assert(r@ =~= self@.reading + (" /")@ + candidates_join(cs.take(0)));
        while k < self.entries.len()
            invariant
                k <= self.entries@.len(),
                r@ == self@.reading + (" /")@ + candidates_join(cs.take(k as int)),
            decreases self.entries@.len() - k,
        {
            if k > 0 {
                r.append("/");
            }
            let cand = &self.entries[k];
            let escaped = Self::escape(cand.0.as_str());
            r.append(escaped.as_str());
            r.append(";[オンゲキ] ");
            let label = kind_label_exec(cand.1);
            r.append(label.as_str());
            proof {
                assert(cs[k as int] == (cand.0@, cand.1));
                lemma_candidates_join_step(cs, k as int);
                assert(r@ =~= self@.reading + (" /")@ + candidates_join(cs.take(k + 1)));
            }
            k = k + 1;
        }
        assert(cs.take(cs.len() as int) =~= cs);
        r.append("/");
        assert(r@ =~= skk_line(self@));
        r
    }
}

} // verus!
