//! The canonical dictionary entry: its kind, its total order, and the
//! generator that turns the definition sets into a sorted, deduplicated
//! sequence of entries.

use vstd::prelude::*;

use crate::data::CharacterModel;
use crate::data::CharactersDefinition;
use crate::data::CharactersDefinitionModel;
use crate::data::GeneralDefinition;
use crate::data::GeneralDefinitionModel;
use crate::data::SectionModel;
use crate::data::SongModel;
use crate::data::SongsDefinition;
use crate::data::SongsDefinitionModel;
use crate::data::UnitModel;
use crate::data::VoiceActorModel;
use crate::order::lemma_lex_lt_transitive;
use crate::order::lemma_lex_trichotomy;
use crate::order::lex_lt;
use crate::order::str_lt;

verus! {

/// The kind of a dictionary entry. The declaration order is the canonical
/// kind order: chapters first, composers last; chapter entries carry their
/// section and chapter numbers and are ordered by that pair.
#[derive(Debug, Clone, Copy, PartialEq, Eq, Structural)]
pub enum DictionaryEntryKind {
    Chapter(i32, i32),
    Character,
    VoiceActor,
    Unit,
    Song,
    Composer,
}

/// A single canonical dictionary entry: kind, headword and reading.
#[derive(Debug)]
pub struct DictionaryEntry {
    pub kind: DictionaryEntryKind,
    pub entry: String,
    pub reading: String,
}

/// Model of a `DictionaryEntry`: the same triple over character sequences.
#[verifier::ext_equal]
pub ghost struct EntryModel {
    pub kind: DictionaryEntryKind,
    pub entry: Seq<char>,
    pub reading: Seq<char>,
}

impl View for DictionaryEntry {
    type V = EntryModel;

    open spec fn view(&self) -> EntryModel {
        EntryModel { kind: self.kind, entry: self.entry@, reading: self.reading@ }
    }
}

impl DeepView for DictionaryEntry {
    type V = EntryModel;

    open spec fn deep_view(&self) -> EntryModel {
        self.view()
    }
}

/// The position of a kind in the canonical kind order.
pub open spec fn kind_rank(k: DictionaryEntryKind) -> int {
    match k {
        DictionaryEntryKind::Chapter(_, _) => 0,
        DictionaryEntryKind::Character => 1,
        DictionaryEntryKind::VoiceActor => 2,
        DictionaryEntryKind::Unit => 3,
        DictionaryEntryKind::Song => 4,
        DictionaryEntryKind::Composer => 5,
    }
}

/// Strict order on kinds: by rank, and among chapter kinds by the pair of
/// section number and chapter number.
pub open spec fn kind_lt(a: DictionaryEntryKind, b: DictionaryEntryKind) -> bool {
    match (a, b) {
        (DictionaryEntryKind::Chapter(s1, c1), DictionaryEntryKind::Chapter(s2, c2)) =>
            s1 < s2 || (s1 == s2 && c1 < c2),
        _ => kind_rank(a) < kind_rank(b),
    }
}

/// Strict order on entries: by kind, then headword, then reading, the
/// string fields ordered lexicographically by code point.
pub open spec fn entry_lt(a: EntryModel, b: EntryModel) -> bool {
    ||| kind_lt(a.kind, b.kind)
    ||| (a.kind == b.kind && lex_lt(a.entry, b.entry))
    ||| (a.kind == b.kind && a.entry == b.entry && lex_lt(a.reading, b.reading))
}

/// Exactly one of `entry_lt(a, b)`, `entry_lt(b, a)` and `a == b` holds.
pub proof fn lemma_entry_trichotomy(a: EntryModel, b: EntryModel)
    ensures
        entry_lt(a, b) || entry_lt(b, a) || a == b,
        entry_lt(a, b) ==> !entry_lt(b, a) && a != b,
        entry_lt(b, a) ==> !entry_lt(a, b) && a != b,
{
    lemma_lex_trichotomy(a.entry, b.entry);
    lemma_lex_trichotomy(a.reading, b.reading);
    if !kind_lt(a.kind, b.kind) && !kind_lt(b.kind, a.kind) {
        assert(a.kind == b.kind);
    }
    if a.kind == b.kind && a.entry == b.entry && a.reading == b.reading {
        assert(a =~= b);
    }
}

/// `entry_lt` is transitive.
pub proof fn lemma_entry_lt_transitive(a: EntryModel, b: EntryModel, c: EntryModel)
    requires
        entry_lt(a, b),
        entry_lt(b, c),
    ensures
        entry_lt(a, c),
{
    if a.kind == b.kind && b.kind == c.kind {
        if lex_lt(a.entry, b.entry) && lex_lt(b.entry, c.entry) {
            lemma_lex_lt_transitive(a.entry, b.entry, c.entry);
        } else if a.entry == b.entry && b.entry == c.entry {
            lemma_lex_lt_transitive(a.reading, b.reading, c.reading);
        }
    }
}

/// Compares two kinds in the order of `kind_lt`.
pub fn kind_lt_exec(a: DictionaryEntryKind, b: DictionaryEntryKind) -> (r: bool)
    ensures
        r == kind_lt(a, b),
{
    match (a, b) {
        (DictionaryEntryKind::Chapter(s1, c1), DictionaryEntryKind::Chapter(s2, c2)) =>
            s1 < s2 || (s1 == s2 && c1 < c2),
        _ => kind_rank_exec(a) < kind_rank_exec(b),
    }
}

/// The rank of a kind, as an executable value.
fn kind_rank_exec(k: DictionaryEntryKind) -> (r: u8)
    ensures
        r as int == kind_rank(k),
{
    match k {
        DictionaryEntryKind::Chapter(_, _) => 0,
        DictionaryEntryKind::Character => 1,
        DictionaryEntryKind::VoiceActor => 2,
        DictionaryEntryKind::Unit => 3,
        DictionaryEntryKind::Song => 4,
        DictionaryEntryKind::Composer => 5,
    }
}

/// Compares two entries in the order of `entry_lt` over their models.
pub fn entry_lt_exec(a: &DictionaryEntry, b: &DictionaryEntry) -> (r: bool)
    ensures
        r == entry_lt(a@, b@),
{
    if kind_lt_exec(a.kind, b.kind) {
        true
    } else if a.kind == b.kind {
        if str_lt(a.entry.as_str(), b.entry.as_str()) {
            true
        } else if a.entry == b.entry {
            str_lt(a.reading.as_str(), b.reading.as_str())
        } else {
            false
        }
    } else {
        false
    }
}

/// All name components joined in order, or in reverse order.
pub open spec fn join_all(parts: Seq<Seq<char>>) -> Seq<char>
    decreases parts.len(),
{
    if parts.len() == 0 {
        Seq::empty()
    } else {
        join_all(parts.drop_last()) + parts.last()
    }
}

/// The synthesized full name: the components concatenated in their stored
/// order, or back to front when the record is flagged as inverted.
pub open spec fn full_name(parts: Seq<Seq<char>>, inverted: bool) -> Seq<char> {
    if inverted {
        join_all(parts.reverse())
    } else {
        join_all(parts)
    }
}

/// One `Character` entry per name component, paired with its reading.
pub open spec fn character_component_entries(c: CharacterModel) -> Seq<EntryModel> {
    Seq::new(
        c.name.len(),
        |i: int| EntryModel {
            kind: DictionaryEntryKind::Character,
            entry: c.name[i],
            reading: c.reading[i],
        },
    )
}

/// The synthesized full-name entry of a character, present exactly when the
/// name has at least two components (a single component would only repeat
/// its own component entry).
pub open spec fn character_full_entries(c: CharacterModel) -> Seq<EntryModel> {
    if c.name.len() >= 2 {
        seq![
            EntryModel {
                kind: DictionaryEntryKind::Character,
                entry: full_name(c.name, c.inverted),
                reading: full_name(c.reading, c.inverted),
            },
        ]
    } else {
        Seq::empty()
    }
}

/// The full-name entry of a voice actor, under the actor's own inversion flag.
pub open spec fn voice_actor_entry(va: VoiceActorModel) -> EntryModel {
    EntryModel {
        kind: DictionaryEntryKind::VoiceActor,
        entry: full_name(va.name, va.inverted),
        reading: full_name(va.reading, va.inverted),
    }
}

/// Every entry a single character contributes: its component entries, its
/// optional full-name entry, and its voice actor's full-name entry.
pub open spec fn character_entries(c: CharacterModel) -> Seq<EntryModel> {
    character_component_entries(c) + character_full_entries(c)
        + seq![voice_actor_entry(c.voice_actor)]
}

/// One `Chapter` entry per chapter of a section, carrying the section and
/// chapter numbers in its kind.
pub open spec fn section_entries(s: SectionModel) -> Seq<EntryModel> {
    Seq::new(
        s.chapters.len(),
        |i: int| EntryModel {
            kind: DictionaryEntryKind::Chapter(s.number, s.chapters[i].number),
            entry: s.chapters[i].title,
            reading: s.chapters[i].reading,
        },
    )
}

/// The single `Unit` entry of a unit record.
pub open spec fn unit_entry(u: UnitModel) -> EntryModel {
    EntryModel { kind: DictionaryEntryKind::Unit, entry: u.name, reading: u.reading }
}

/// The `Song` entry and the `Composer` entry of a song record.
pub open spec fn song_entries(s: SongModel) -> Seq<EntryModel> {
    seq![
        EntryModel { kind: DictionaryEntryKind::Song, entry: s.title, reading: s.reading },
        EntryModel {
            kind: DictionaryEntryKind::Composer,
            entry: s.composer.name,
            reading: s.composer.reading,
        },
    ]
}

/// The chapter entries of all sections, concatenated in order.
pub open spec fn sections_entries(ss: Seq<SectionModel>) -> Seq<EntryModel>
    decreases ss.len(),
{
    if ss.len() == 0 {
        Seq::empty()
    } else {
        sections_entries(ss.drop_last()) + section_entries(ss.last())
    }
}

/// The entries of all characters, concatenated in order.
pub open spec fn characters_entries(cs: Seq<CharacterModel>) -> Seq<EntryModel>
    decreases cs.len(),
{
    if cs.len() == 0 {
        Seq::empty()
    } else {
        characters_entries(cs.drop_last()) + character_entries(cs.last())
    }
}

/// The entries of all units, in order.
pub open spec fn units_entries(us: Seq<UnitModel>) -> Seq<EntryModel>
    decreases us.len(),
{
    if us.len() == 0 {
        Seq::empty()
    } else {
        units_entries(us.drop_last()) + seq![unit_entry(us.last())]
    }
}

/// The song and composer entries of all songs, concatenated in order.
pub open spec fn songs_entries(ss: Seq<SongModel>) -> Seq<EntryModel>
    decreases ss.len(),
{
    if ss.len() == 0 {
        Seq::empty()
    } else {
        songs_entries(ss.drop_last()) + song_entries(ss.last())
    }
}

/// Every entry the three definition sets give rise to, in generation order,
/// before sorting and deduplication.
pub open spec fn raw_entries(
    generals: GeneralDefinitionModel,
    characters: CharactersDefinitionModel,
    songs: SongsDefinitionModel,
) -> Seq<EntryModel> {
    sections_entries(generals.sections) + characters_entries(characters.characters)
        + units_entries(characters.units) + songs_entries(songs.songs)
}

/// A strictly sorted entry sequence: adjacent entries strictly increase, so
/// the sequence is both sorted and free of duplicates.
pub open spec fn canonical(s: Seq<EntryModel>) -> bool {
    forall|i: int| 0 <= i < s.len() - 1 ==> entry_lt(s[i], #[trigger] s[i + 1])
}

/// Inserts an entry into a sorted sequence at its position, keeping the
/// sequence unchanged when the entry is already present.
pub open spec fn insert_entry(s: Seq<EntryModel>, e: EntryModel) -> Seq<EntryModel>
    decreases s.len(),
{
    if s.len() == 0 {
        seq![e]
    } else if e == s[0] {
        s
    } else if entry_lt(e, s[0]) {
        seq![e] + s
    } else {
        seq![s[0]] + insert_entry(s.skip(1), e)
    }
}

/// Sorts and deduplicates an entry sequence by repeated sorted insertion,
/// taking the entries in order.
pub open spec fn canonicalize(s: Seq<EntryModel>) -> Seq<EntryModel>
    decreases s.len(),
{
    if s.len() == 0 {
        Seq::empty()
    } else {
        insert_entry(canonicalize(s.drop_last()), s.last())
    }
}

/// In a strictly sorted sequence every earlier entry is strictly below
/// every later one.
pub proof fn lemma_canonical_pairwise(s: Seq<EntryModel>, i: int, j: int)
    requires
        canonical(s),
        0 <= i < j < s.len(),
    ensures
        entry_lt(s[i], s[j]),
    decreases j - i,
{
    if j > i + 1 {
        lemma_canonical_pairwise(s, i, j - 1);
        assert(entry_lt(s[j - 1], s[j - 1 + 1]));
        lemma_entry_lt_transitive(s[i], s[j - 1], s[j]);
    }
}

/// Sorted insertion keeps the sequence strictly sorted, and its contents
/// are the old contents plus the inserted entry.
proof fn lemma_insert_entry_canonical(s: Seq<EntryModel>, e: EntryModel)
    requires
        canonical(s),
    ensures
        canonical(insert_entry(s, e)),
        forall|x: EntryModel| #[trigger] insert_entry(s, e).contains(x) <==> (s.contains(x) || x == e),
    decreases s.len(),
{
    let r = insert_entry(s, e);
    if s.len() == 0 {
        assert(r =~= seq![e]);
        assert(r.contains(e)) by {
            assert(r[0] == e);
        }
        assert(forall|x: EntryModel| #[trigger] r.contains(x) ==> x == e);
    } else if e == s[0] {
        assert(s.contains(e)) by {
            assert(s[0] == e);
        }
    } else if entry_lt(e, s[0]) {
        assert(canonical(r)) by {
            assert(forall|i: int| 0 <= i < s.len() ==> r[i + 1] == s[i]);
            assert(r[0] == e && r[1] == s[0]);
        }
        assert forall|x: EntryModel| #[trigger] r.contains(x) implies (s.contains(x) || x == e) by {
            let i = choose|i: int| 0 <= i < r.len() && r[i] == x;
            if i > 0 {
                assert(s[i - 1] == x);
            }
        }
        assert forall|x: EntryModel| s.contains(x) || x == e implies #[trigger] r.contains(x) by {
            if x == e {
                assert(r[0] == x);
            } else {
                let i = choose|i: int| 0 <= i < s.len() && s[i] == x;
                assert(r[i + 1] == x);
            }
        }
    } else {
        lemma_entry_trichotomy(e, s[0]);
        let tail = s.skip(1);
        assert(canonical(tail)) by {
            assert(forall|i: int|
                0 <= i < tail.len() - 1 ==> tail[i] == s[i + 1] && #[trigger] tail[i + 1] == s[i + 2]);
        }
        lemma_insert_entry_canonical(tail, e);
        let rt = insert_entry(tail, e);
        assert(r =~= seq![s[0]] + rt);
        // The head of the inserted tail is either e or the old second element;
        // in both cases it lies strictly above s[0].
        assert(rt.len() > 0);
        assert(rt[0] == e || (tail.len() > 0 && rt[0] == tail[0])) by {
            if tail.len() == 0 {
            } else if e == tail[0] {
            } else if entry_lt(e, tail[0]) {
            } else {
            }
        }
        if tail.len() > 0 {
            assert(entry_lt(s[0], s[1]));
        }
        assert(entry_lt(s[0], rt[0]));
        assert(canonical(r)) by {
            assert(forall|i: int| 0 <= i < rt.len() ==> r[i + 1] == #[trigger] rt[i]);
            assert(forall|i: int|
                1 <= i < r.len() - 1 ==> #[trigger] r[i] == rt[i - 1] && r[i + 1] == rt[i]);
            assert(r[0] == s[0] && r[1] == rt[0]);
        }
        assert forall|x: EntryModel| #[trigger] r.contains(x) implies (s.contains(x) || x == e) by {
            let i = choose|i: int| 0 <= i < r.len() && r[i] == x;
            if i == 0 {
                assert(s[0] == x);
            } else {
                assert(rt[i - 1] == x);
                assert(rt.contains(x));
                if tail.contains(x) {
                    let j = choose|j: int| 0 <= j < tail.len() && tail[j] == x;
                    assert(s[j + 1] == x);
                }
            }
        }
        assert forall|x: EntryModel| s.contains(x) || x == e implies #[trigger] r.contains(x) by {
            if x == e {
                assert(rt.contains(x));
                let j = choose|j: int| 0 <= j < rt.len() && rt[j] == x;
                assert(r[j + 1] == x);
            } else {
                let i = choose|i: int| 0 <= i < s.len() && s[i] == x;
                if i == 0 {
                    assert(r[0] == x);
                } else {
                    assert(tail[i - 1] == x);
                    assert(tail.contains(x));
                    assert(rt.contains(x));
                    let j = choose|j: int| 0 <= j < rt.len() && rt[j] == x;
                    assert(r[j + 1] == x);
                }
            }
        }
    }
}

/// The canonical form of any sequence is strictly sorted and has exactly
/// the contents of the original.
pub proof fn lemma_canonicalize_canonical(s: Seq<EntryModel>)
    ensures
        canonical(canonicalize(s)),
        forall|x: EntryModel| #[trigger] canonicalize(s).contains(x) <==> s.contains(x),
    decreases s.len(),
{
    if s.len() == 0 {
        assert(forall|x: EntryModel| !s.contains(x));
    } else {
        let head = s.drop_last();
        lemma_canonicalize_canonical(head);
        lemma_insert_entry_canonical(canonicalize(head), s.last());
        assert(forall|x: EntryModel| #[trigger] s.contains(x) <==> (head.contains(x) || x == s.last())) by {
            assert(forall|i: int| 0 <= i < head.len() ==> #[trigger] head[i] == s[i]);
            assert(forall|i: int| 0 <= i < s.len() - 1 ==> #[trigger] s[i] == head[i]);
            assert(s[s.len() - 1] == s.last());
        }
    }
}

/// Dropping the last entry of a strictly sorted sequence keeps it strictly
/// sorted.
proof fn lemma_canonical_drop_last(s: Seq<EntryModel>)
    requires
        canonical(s),
        s.len() > 0,
    ensures
        canonical(s.drop_last()),
{
    let h = s.drop_last();
    assert forall|i: int| 0 <= i < h.len() - 1 implies entry_lt(h[i], #[trigger] h[i + 1]) by {
        assert(entry_lt(s[i], s[i + 1]));
    }
}

/// Where the scan for the insertion position of `e` stops, `insert_entry`
/// places `e` — or leaves the sequence alone when `e` already stands there.
proof fn lemma_insert_entry_split(s: Seq<EntryModel>, e: EntryModel, i: int)
    requires
        canonical(s),
        0 <= i <= s.len(),
        forall|j: int| 0 <= j < i ==> entry_lt(#[trigger] s[j], e),
        i < s.len() ==> !entry_lt(s[i], e),
    ensures
        i < s.len() && s[i] == e ==> insert_entry(s, e) == s,
        !(i < s.len() && s[i] == e) ==> insert_entry(s, e) == s.take(i) + seq![e] + s.skip(i),
    decreases s.len(),
{
    if s.len() == 0 {
        assert(insert_entry(s, e) =~= s.take(0) + seq![e] + s.skip(0));
    } else {
        lemma_entry_trichotomy(e, s[0]);
        if e == s[0] {
            assert(i == 0);
        } else if entry_lt(e, s[0]) {
            assert(i == 0);
            assert(insert_entry(s, e) =~= s.take(0) + seq![e] + s.skip(0));
        } else {
            assert(i >= 1);
            let tail = s.skip(1);
            assert(canonical(tail)) by {
                assert(forall|k: int|
                    0 <= k < tail.len() - 1 ==> tail[k] == s[k + 1] && #[trigger] tail[k + 1]
                        == s[k + 2]);
            }
            assert(forall|j: int| 0 <= j < i - 1 ==> entry_lt(#[trigger] tail[j], e)) by {
                assert(forall|j: int| 0 <= j < i - 1 ==> #[trigger] tail[j] == s[j + 1]);
            }
            assert(i - 1 < tail.len() ==> !entry_lt(tail[i - 1], e));
            lemma_insert_entry_split(tail, e, i - 1);
            if i < s.len() && s[i] == e {
                assert(tail[i - 1] == e);
                assert(insert_entry(s, e) =~= seq![s[0]] + tail);
                assert(seq![s[0]] + tail =~= s);
            } else {
                assert(!(i - 1 < tail.len() && tail[i - 1] == e)) by {
                    if i < s.len() {
                        assert(tail[i - 1] == s[i]);
                    }
                }
                assert(insert_entry(s, e) =~= seq![s[0]] + (tail.take(i - 1) + seq![e] + tail.skip(
                    i - 1,
                )));
                assert(seq![s[0]] + (tail.take(i - 1) + seq![e] + tail.skip(i - 1)) =~= s.take(i)
                    + seq![e] + s.skip(i));
            }
        }
    }
}

/// A strictly sorted sequence is its own canonical form.
pub proof fn lemma_canonicalize_identity(s: Seq<EntryModel>)
    requires
        canonical(s),
    ensures
        canonicalize(s) == s,
    decreases s.len(),
{
    if s.len() > 0 {
        let h = s.drop_last();
        lemma_canonical_drop_last(s);
        lemma_canonicalize_identity(h);
        assert forall|j: int| 0 <= j < h.len() implies entry_lt(#[trigger] h[j], s.last()) by {
            lemma_canonical_pairwise(s, j, s.len() - 1);
        }
        lemma_insert_entry_split(h, s.last(), h.len() as int);
        assert(h.take(h.len() as int) + seq![s.last()] + h.skip(h.len() as int) =~= s);
    }
}

/// In a strictly sorted sequence no entry triple occurs twice: any two
/// entries at different positions differ.
pub proof fn lemma_canonical_distinct(s: Seq<EntryModel>, i: int, j: int)
    requires
        canonical(s),
        0 <= i < s.len(),
        0 <= j < s.len(),
        i != j,
    ensures
        s[i] != s[j],
{
    if i < j {
        lemma_canonical_pairwise(s, i, j);
        lemma_entry_trichotomy(s[i], s[j]);
    } else {
        lemma_canonical_pairwise(s, j, i);
        lemma_entry_trichotomy(s[j], s[i]);
    }
}

/// Canonicalization is idempotent: a second pass changes nothing.
pub proof fn lemma_canonicalize_idempotent(s: Seq<EntryModel>)
    ensures
        canonicalize(canonicalize(s)) == canonicalize(s),
{
    lemma_canonicalize_canonical(s);
    lemma_canonicalize_identity(canonicalize(s));
}

/// Generation is deterministic: any two entry sequences that satisfy the
/// generator's contract for the same definition sets are equal.
pub proof fn lemma_generation_deterministic(
    generals: GeneralDefinitionModel,
    characters: CharactersDefinitionModel,
    songs: SongsDefinitionModel,
    r1: Seq<EntryModel>,
    r2: Seq<EntryModel>,
)
    requires
        r1 == canonicalize(raw_entries(generals, characters, songs)),
        r2 == canonicalize(raw_entries(generals, characters, songs)),
    ensures
        r1 == r2,
{
}

/// The models of a sequence of entries.
pub open spec fn entry_views(s: Seq<DictionaryEntry>) -> Seq<EntryModel> {
    Seq::new(s.len(), |i: int| s[i]@)
}

/// Inserts an entry into a strictly sorted vector at its position, dropping
/// it when an entry with the same model is already present.
fn insert_canonical(out: &mut Vec<DictionaryEntry>, e: DictionaryEntry)
    requires
        canonical(entry_views(old(out)@)),
    ensures
        entry_views(final(out)@) == insert_entry(entry_views(old(out)@), e@),
        canonical(entry_views(final(out)@)),
{
    let ghost s = entry_views(out@);
    proof {
        lemma_insert_entry_canonical(s, e@);
    }
    let mut i: usize = 0;
    loop
        invariant_except_break
            i <= out@.len(),
            s == entry_views(out@),
            canonical(s),
            forall|j: int| 0 <= j < i ==> entry_lt(#[trigger] s[j], e@),
        ensures
            i <= out@.len(),
            s == entry_views(out@),
            forall|j: int| 0 <= j < i ==> entry_lt(#[trigger] s[j], e@),
            i < out@.len() ==> !entry_lt(s[i as int], e@),
        decreases out@.len() - i,
    {
        if i == out.len() {
            break;
        }
        assert(out[i as int]@ == s[i as int]);
        if !entry_lt_exec(&out[i], &e) {
            break;
        }
        i = i + 1;
    }
    proof {
        lemma_insert_entry_split(s, e@, i as int);
    }
    if i < out.len() && entry_eq_exec(&out[i], &e) {
        // Already present: the sequence is unchanged.
    } else {
        out.insert(i, e);
        assert(entry_views(out@) =~= s.take(i as int) + seq![e@] + s.skip(i as int));
    }
}

/// Appending one sequence element extends the joined result by it.
proof fn lemma_join_all_push(parts: Seq<Seq<char>>, p: Seq<char>)
    ensures
        join_all(parts.push(p)) == join_all(parts) + p,
{
    assert(parts.push(p).drop_last() =~= parts);
    assert(parts.push(p).last() == p);
}

/// Joins the name components of a record into the full name, back to front
/// when the record is flagged as inverted.
pub fn join_parts(parts: &Vec<String>, inverted: bool) -> (r: String)
    ensures
        r@ == full_name(parts.deep_view(), inverted),
{
    let ghost ps = parts.deep_view();
    let ghost target: Seq<Seq<char>> = if inverted {
        ps.reverse()
    } else {
        ps
    };
    let mut r = String::new();
    let n = parts.len();
    let mut j: usize = 0;
    assert(target.take(0) =~= Seq::<Seq<char>>::empty());
    while j < n
        invariant
            j <= n,
            n == parts@.len(),
            ps == parts.deep_view(),
            target == if inverted {
                ps.reverse()
            } else {
                ps
            },
            r@ == join_all(target.take(j as int)),
        decreases n - j,
    {
        let idx = if inverted {
            n - 1 - j
        } else {
            j
        };
        assert(target[j as int] == ps[idx as int]);
        r.append(parts[idx].as_str());
        proof {
            assert(target.take(j + 1) =~= target.take(j as int).push(target[j as int]));
            lemma_join_all_push(target.take(j as int), target[j as int]);
        }
        j = j + 1;
    }
    assert(target.take(n as int) =~= target);
    r
}

/// Extending the input by one entry canonicalizes by one sorted insertion.
proof fn lemma_canonicalize_push(s: Seq<EntryModel>, e: EntryModel)
    ensures
        canonicalize(s.push(e)) == insert_entry(canonicalize(s), e),
{
    assert(s.push(e).drop_last() =~= s);
    assert(s.push(e).last() == e);
}

/// Extending the section prefix by one section appends its entries.
proof fn lemma_sections_entries_step(ss: Seq<SectionModel>, i: int)
    requires
        0 <= i < ss.len(),
    ensures
        sections_entries(ss.take(i + 1)) == sections_entries(ss.take(i)) + section_entries(ss[i]),
{
    assert(ss.take(i + 1).drop_last() =~= ss.take(i));
    assert(ss.take(i + 1).last() == ss[i]);
}

/// Extending the character prefix by one character appends its entries.
proof fn lemma_characters_entries_step(cs: Seq<CharacterModel>, i: int)
    requires
        0 <= i < cs.len(),
    ensures
        characters_entries(cs.take(i + 1)) == characters_entries(cs.take(i)) + character_entries(
            cs[i],
        ),
{
    assert(cs.take(i + 1).drop_last() =~= cs.take(i));
    assert(cs.take(i + 1).last() == cs[i]);
}

/// Extending the unit prefix by one unit appends its entry.
proof fn lemma_units_entries_step(us: Seq<UnitModel>, i: int)
    requires
        0 <= i < us.len(),
    ensures
        units_entries(us.take(i + 1)) == units_entries(us.take(i)) + seq![unit_entry(us[i])],
{
    assert(us.take(i + 1).drop_last() =~= us.take(i));
    assert(us.take(i + 1).last() == us[i]);
}

/// Extending the song prefix by one song appends its two entries.
proof fn lemma_songs_entries_step(ss: Seq<SongModel>, i: int)
    requires
        0 <= i < ss.len(),
    ensures
        songs_entries(ss.take(i + 1)) == songs_entries(ss.take(i)) + song_entries(ss[i]),
{
    assert(ss.take(i + 1).drop_last() =~= ss.take(i));
    assert(ss.take(i + 1).last() == ss[i]);
}

/// A dialect's entry representation, derived from the canonical entries.
pub trait EmitDictionary where Self: Sized {
    /// How a sequence of emitted records relates to the canonical entries
    /// it was derived from.
    spec fn emit_model(entries: Seq<EntryModel>, out: Seq<Self>) -> bool;

    /// Maps the canonical entry sequence into this dialect's records.
    fn emit(entries: &Vec<DictionaryEntry>) -> (result: Vec<Self>)
        ensures
            Self::emit_model(entry_views(entries@), result@),
    ;
}

/// Generates the canonical dictionary entries of the three definition sets:
/// every raw entry of `raw_entries`, sorted by `entry_lt` and stripped of
/// duplicate triples.
#[verifier::loop_isolation(false)]
#[verifier::rlimit(60)]
pub fn generate_entries(
    generals: &GeneralDefinition,
    characters: &CharactersDefinition,
    songs: &SongsDefinition,
) -> (result: Vec<DictionaryEntry>)
    requires
        characters@.wf(),
    ensures
        entry_views(result@) == canonicalize(raw_entries(generals@, characters@, songs@)),
        canonical(entry_views(result@)),
{
    let ghost gm = generals@;
    let ghost cm = characters@;
    let ghost sm = songs@;
    let mut result: Vec<DictionaryEntry> = Vec::new();
    let ghost mut raw: Seq<EntryModel> = Seq::empty();
    assert(entry_views(result@) =~= canonicalize(raw));

    // Chapter entries.
    let mut i: usize = 0;
    assert(raw == sections_entries(gm.sections.take(0))) by {
        assert(gm.sections.take(0) =~= Seq::<SectionModel>::empty());
    }
    while i < generals.sections.len()
        invariant
            i <= gm.sections.len(),
            raw == sections_entries(gm.sections.take(i as int)),
            entry_views(result@) == canonicalize(raw),
            canonical(entry_views(result@)),
        decreases gm.sections.len() - i,
    {
        let section = &generals.sections[i];
        let ghost secm = gm.sections[i as int];
        let ghost base = raw;
        let mut j: usize = 0;
        assert(section_entries(secm).take(0) =~= Seq::<EntryModel>::empty());
        assert(base + section_entries(secm).take(0) =~= base);
        while j < section.chapters.len()
            invariant
                j <= secm.chapters.len(),
                raw == base + section_entries(secm).take(j as int),
                entry_views(result@) == canonicalize(raw),
                canonical(entry_views(result@)),
            decreases secm.chapters.len() - j,
        {
            let chapter = &section.chapters[j];
            let e = DictionaryEntry {
                kind: DictionaryEntryKind::Chapter(section.number, chapter.number),
                entry: chapter.title.clone(),
                reading: chapter.reading.clone(),
            };
            proof {
                assert(e@ == section_entries(secm)[j as int]);
                lemma_canonicalize_push(raw, e@);
                assert(base + section_entries(secm).take(j + 1) =~= raw.push(e@));
            }
            insert_canonical(&mut result, e);
            proof {
                raw = raw.push(e@);
            }
            j = j + 1;
        }
        proof {
            assert(section_entries(secm).take(secm.chapters.len() as int) =~= section_entries(
                secm,
            ));
            lemma_sections_entries_step(gm.sections, i as int);
        }
        i = i + 1;
    }
    assert(gm.sections.take(gm.sections.len() as int) =~= gm.sections);

    // Character, full-name and voice actor entries.
    let ghost chapter_part = raw;
    let mut i: usize = 0;
    assert(raw == chapter_part + characters_entries(cm.characters.take(0))) by {
        assert(cm.characters.take(0) =~= Seq::<CharacterModel>::empty());
        assert(chapter_part + Seq::<EntryModel>::empty() =~= chapter_part);
    }
    while i < characters.characters.len()
        invariant
            i <= cm.characters.len(),
            raw == chapter_part + characters_entries(cm.characters.take(i as int)),
            entry_views(result@) == canonicalize(raw),
            canonical(entry_views(result@)),
        decreases cm.characters.len() - i,
    {
        let character = &characters.characters[i];
        let ghost chm = cm.characters[i as int];
        assert(chm.wf());
        let ghost base = raw;
        let mut j: usize = 0;
        assert(character_component_entries(chm).take(0) =~= Seq::<EntryModel>::empty());
        assert(base + character_component_entries(chm).take(0) =~= base);
        while j < character.name.len()
            invariant
                j <= chm.name.len(),
                raw == base + character_component_entries(chm).take(j as int),
                entry_views(result@) == canonicalize(raw),
                canonical(entry_views(result@)),
        decreases chm.name.len() - j,
        {
            let e = DictionaryEntry {
                kind: DictionaryEntryKind::Character,
                entry: character.name[j].clone(),
                reading: character.reading[j].clone(),
            };
            proof {
                assert(e@ == character_component_entries(chm)[j as int]);
                lemma_canonicalize_push(raw, e@);
                assert(base + character_component_entries(chm).take(j + 1) =~= raw.push(e@));
            }
            insert_canonical(&mut result, e);
            proof {
                raw = raw.push(e@);
            }
            j = j + 1;
        }
        assert(character_component_entries(chm).take(chm.name.len() as int)
            =~= character_component_entries(chm));

        // Full name, synthesized only when the name has several components.
        if character.name.len() >= 2 {
            let inv = match character.inverted {
                Some(b) => b,
                None => false,
            };
            assert(inv == chm.inverted);
            let e = DictionaryEntry {
                kind: DictionaryEntryKind::Character,
                entry: join_parts(&character.name, inv),
                reading: join_parts(&character.reading, inv),
            };
            proof {
                assert(e@ == character_full_entries(chm)[0]);
                lemma_canonicalize_push(raw, e@);
            }
            insert_canonical(&mut result, e);
            proof {
                raw = raw.push(e@);
            }
        }

        // The voice actor's full name, under the actor's own flag.
        let va = &character.voice_actor;
        let va_inv = match va.inverted {
            Some(b) => b,
            None => false,
        };
        assert(va_inv == chm.voice_actor.inverted);
        let e = DictionaryEntry {
            kind: DictionaryEntryKind::VoiceActor,
            entry: join_parts(&va.name, va_inv),
            reading: join_parts(&va.reading, va_inv),
        };
        proof {
            assert(e@ == voice_actor_entry(chm.voice_actor));
            lemma_canonicalize_push(raw, e@);
        }
        insert_canonical(&mut result, e);
        proof {
            raw = raw.push(e@);
            assert(raw =~= base + character_entries(chm));
            lemma_characters_entries_step(cm.characters, i as int);
        }
        i = i + 1;
    }
    assert(cm.characters.take(cm.characters.len() as int) =~= cm.characters);

    // Unit entries.
    let ghost character_part = raw;
    let mut i: usize = 0;
    assert(raw == character_part + units_entries(cm.units.take(0))) by {
        assert(cm.units.take(0) =~= Seq::<UnitModel>::empty());
        assert(character_part + Seq::<EntryModel>::empty() =~= character_part);
    }
    while i < characters.units.len()
        invariant
            i <= cm.units.len(),
            raw == character_part + units_entries(cm.units.take(i as int)),
            entry_views(result@) == canonicalize(raw),
            canonical(entry_views(result@)),
        decreases cm.units.len() - i,
    {
        let unit = &characters.units[i];
        let e = DictionaryEntry {
            kind: DictionaryEntryKind::Unit,
            entry: unit.name.clone(),
            reading: unit.reading.clone(),
        };
        proof {
            assert(e@ == unit_entry(cm.units[i as int]));
            lemma_canonicalize_push(raw, e@);
            lemma_units_entries_step(cm.units, i as int);
            assert(character_part + units_entries(cm.units.take(i + 1)) =~= raw.push(e@));
        }
        insert_canonical(&mut result, e);
        proof {
            raw = raw.push(e@);
        }
        i = i + 1;
    }
    assert(cm.units.take(cm.units.len() as int) =~= cm.units);

    // Song and composer entries.
    let ghost unit_part = raw;
    let mut i: usize = 0;
    assert(raw == unit_part + songs_entries(sm.songs.take(0))) by {
        assert(sm.songs.take(0) =~= Seq::<SongModel>::empty());
        assert(unit_part + Seq::<EntryModel>::empty() =~= unit_part);
    }
    while i < songs.songs.len()
        invariant
            i <= sm.songs.len(),
            raw == unit_part + songs_entries(sm.songs.take(i as int)),
            entry_views(result@) == canonicalize(raw),
            canonical(entry_views(result@)),
        decreases sm.songs.len() - i,
    {
        let song = &songs.songs[i];
        let ghost sgm = sm.songs[i as int];
        let e = DictionaryEntry {
            kind: DictionaryEntryKind::Song,
            entry: song.title.clone(),
            reading: song.reading.clone(),
        };
        proof {
            assert(e@ == song_entries(sgm)[0]);
            lemma_canonicalize_push(raw, e@);
        }
        insert_canonical(&mut result, e);
        proof {
            raw = raw.push(e@);
        }
        let e = DictionaryEntry {
            kind: DictionaryEntryKind::Composer,
            entry: song.composer.name.clone(),
            reading: song.composer.reading.clone(),
        };
        proof {
            assert(e@ == song_entries(sgm)[1]);
            lemma_canonicalize_push(raw, e@);
        }
        insert_canonical(&mut result, e);
        proof {
            raw = raw.push(e@);
            lemma_songs_entries_step(sm.songs, i as int);
            assert(unit_part + songs_entries(sm.songs.take(i + 1)) =~= raw);
        }
        i = i + 1;
    }
    assert(sm.songs.take(sm.songs.len() as int) =~= sm.songs);
    assert(raw =~= raw_entries(gm, cm, sm));

    result
}

/// Whether two entries have equal models.
pub fn entry_eq_exec(a: &DictionaryEntry, b: &DictionaryEntry) -> (r: bool)
    ensures
        r == (a@ == b@),
{
    let r = a.kind == b.kind && a.entry == b.entry && a.reading == b.reading;
    proof {
        if r {
            assert(a@ =~= b@);
        }
    }
    r
}

} // verus!

