//! The dataset: identity store, participation index, result store, ranking
//! index and event catalog, together with the read-only queries over them.
//!
//! The dataset is built once (see the builder) and is immutable afterwards;
//! the mutating operations are only reachable from the builder.

use vstd::prelude::*;

use crate::assoc::assoc_at;
use crate::assoc::assoc_has;
use crate::assoc::assoc_idx;
use crate::assoc::assoc_position;
use crate::assoc::keys_unique;
use crate::assoc::lemma_assoc_idx_unique;
use crate::assoc::lemma_assoc_insert;
use crate::assoc::lemma_assoc_update;
use crate::assoc::Keyed;
use crate::records::EventRecords;
use crate::sort::lemma_filter_all_false;
use crate::sort::lemma_filter_all_true;
use crate::sort::sort_by_time;
use crate::sort::sorted_by_time;
use crate::sort::time_filter;
use crate::sort::TimeKeyed;
use crate::strings::is_prefix;
use crate::strings::lemma_lex_le_antisym;
use crate::strings::lemma_lex_le_refl;
use crate::strings::lemma_lex_le_total;
use crate::strings::lemma_lex_le_trans;
use crate::strings::lemma_prefix_between;
use crate::strings::lemma_prefix_le;
use crate::strings::lex_le;
use crate::strings::lex_lt;
use crate::strings::str_eq;
use crate::strings::str_le;
use crate::strings::str_starts_with;
use crate::types::CompResult;
use crate::types::Competitor;
use crate::types::Event;
use crate::types::Ranking;
use crate::types::Record;
use crate::types::RecordWithCompetitor;
use crate::types::ResultType;

verus! {

/// The participation of one competitor: the distinct competitions they
/// appear in.
pub struct ParticipationEntry {
    pub competitor_id: String,
    pub competitions: Vec<String>,
}

impl Keyed for ParticipationEntry {
    open spec fn key(&self) -> Seq<char> {
        self.competitor_id@
    }

    fn key_matches(&self, k: &str) -> (r: bool) {
        str_eq(self.competitor_id.as_str(), k)
    }
}

/// The result records of one competitor.
pub struct RecordsEntry {
    pub competitor_id: String,
    pub records: EventRecords,
}

impl Keyed for RecordsEntry {
    open spec fn key(&self) -> Seq<char> {
        self.competitor_id@
    }

    fn key_matches(&self, k: &str) -> (r: bool) {
        str_eq(self.competitor_id.as_str(), k)
    }
}

/// The ranking list of one event (for one of the two result kinds).
pub struct RankingsEntry {
    pub event_id: String,
    pub entries: Vec<Ranking>,
}

impl Keyed for RankingsEntry {
    open spec fn key(&self) -> Seq<char> {
        self.event_id@
    }

    fn key_matches(&self, k: &str) -> (r: bool) {
        str_eq(self.event_id.as_str(), k)
    }
}

/// The character sequences of a sequence of strings.
pub open spec fn string_views(s: Seq<String>) -> Seq<Seq<char>> {
    s.map_values(|x: String| x@)
}

/// No two strings of the sequence read the same.
pub open spec fn distinct_views(s: Seq<String>) -> bool {
    forall|i: int, j: int| 0 <= i < j < s.len() ==> s[i]@ != s[j]@
}

/// Strictly ascending competitor identifiers.
pub open spec fn ids_sorted(s: Seq<Competitor>) -> bool {
    forall|i: int, j: int| 0 <= i < j < s.len() ==> lex_lt(s[i].id@, s[j].id@)
}

/// Strict sorting makes the identifiers unique keys.
pub proof fn lemma_ids_sorted_unique(s: Seq<Competitor>)
    requires
        ids_sorted(s),
    ensures
        keys_unique(s),
{
    assert forall|i: int, j: int| 0 <= i < j < s.len() implies s[i].key() != s[j].key() by {
        assert(lex_lt(s[i].id@, s[j].id@));
    }
}

/// The (result value, competitor identifier) views of ranking entries.
pub open spec fn ranking_views(s: Seq<Ranking>) -> Seq<(u32, Seq<char>)> {
    s.map_values(|r: Ranking| (r.result.time, r.competitor_id@))
}

/// The dataset. All indices are owned by it; nothing mutates them after the
/// builder finishes.
pub struct WCA {
    /// The identity store, in ascending identifier order.
    pub persons: Vec<Competitor>,
    competitions: Vec<ParticipationEntry>,
    records: Vec<RecordsEntry>,
    single_rankings: Vec<RankingsEntry>,
    average_rankings: Vec<RankingsEntry>,
    events: Vec<Event>,
    duplicate_persons: usize,
}

impl WCA {
    /// The identity store, for specification purposes.
    pub closed spec fn persons_seq(self) -> Seq<Competitor> {
        self.persons@
    }

    /// The participation index, for specification purposes.
    pub closed spec fn comps_seq(self) -> Seq<ParticipationEntry> {
        self.competitions@
    }

    /// The result store, for specification purposes.
    pub closed spec fn records_seq(self) -> Seq<RecordsEntry> {
        self.records@
    }

    /// One of the two ranking stores, for specification purposes.
    pub closed spec fn rankings_seq(self, result_type: ResultType) -> Seq<RankingsEntry> {
        match result_type {
            ResultType::Single => self.single_rankings@,
            ResultType::Average => self.average_rankings@,
        }
    }

    /// The event catalog, for specification purposes.
    pub closed spec fn events_seq(self) -> Seq<Event> {
        self.events@
    }

    /// How many inserts overwrote an already-present competitor identifier.
    pub closed spec fn duplicate_count(self) -> usize {
        self.duplicate_persons
    }

    /// The structural invariant: the identity store is strictly sorted, and
    /// every index has unique keys (with distinct competitions per
    /// competitor in the participation index).
    pub open spec fn wf_base(self) -> bool {
        &&& ids_sorted(self.persons_seq())
        &&& keys_unique(self.comps_seq())
        &&& forall|i: int|
            0 <= i < self.comps_seq().len() ==> distinct_views(
                #[trigger] self.comps_seq()[i].competitions@,
            )
        &&& keys_unique(self.records_seq())
        &&& forall|i: int|
            0 <= i < self.records_seq().len() ==> (#[trigger] self.records_seq()[i].records).wf()
        &&& keys_unique(self.rankings_seq(ResultType::Single))
        &&& keys_unique(self.rankings_seq(ResultType::Average))
    }

    /// The full invariant of a built dataset: additionally, every ranking
    /// list is sorted ascending by result value.
    pub open spec fn wf(self) -> bool {
        &&& self.wf_base()
        &&& forall|i: int|
            0 <= i < self.rankings_seq(ResultType::Single).len() ==> sorted_by_time(
                (#[trigger] self.rankings_seq(ResultType::Single)[i]).entries@,
            )
        &&& forall|i: int|
            0 <= i < self.rankings_seq(ResultType::Average).len() ==> sorted_by_time(
                (#[trigger] self.rankings_seq(ResultType::Average)[i]).entries@,
            )
    }

    /// A competitor with identifier `id` is present.
    pub open spec fn has_person(self, id: Seq<char>) -> bool {
        assoc_has(self.persons_seq(), id)
    }

    /// The competitor with identifier `id`; meaningful when present.
    pub open spec fn person_of(self, id: Seq<char>) -> Competitor {
        assoc_at(self.persons_seq(), id)
    }

    /// Competitor `id` appears in the participation index.
    pub open spec fn has_participation(self, id: Seq<char>) -> bool {
        assoc_has(self.comps_seq(), id)
    }

    /// The distinct competitions of competitor `id`, in first-seen order;
    /// meaningful when present.
    pub open spec fn comps_of(self, id: Seq<char>) -> Seq<Seq<char>> {
        string_views(assoc_at(self.comps_seq(), id).competitions@)
    }

    /// Competitor `id` has a record store.
    pub open spec fn has_records(self, id: Seq<char>) -> bool {
        assoc_has(self.records_seq(), id)
    }

    /// The record store of competitor `id`; meaningful when present.
    pub open spec fn records_of(self, id: Seq<char>) -> EventRecords {
        assoc_at(self.records_seq(), id).records
    }

    /// The record of competitor `id` for event `e`, if any.
    pub open spec fn record_of(self, id: Seq<char>, e: Seq<char>) -> Option<Record> {
        if self.has_records(id) {
            self.records_of(id).record_of(e)
        } else {
            None
        }
    }

    /// Event `e` has a ranking list of the given kind.
    pub open spec fn has_rankings(self, result_type: ResultType, e: Seq<char>) -> bool {
        assoc_has(self.rankings_seq(result_type), e)
    }

    /// The ranking list of event `e` for the given kind; meaningful when
    /// present.
    pub open spec fn rankings_of(self, result_type: ResultType, e: Seq<char>) -> Seq<Ranking> {
        assoc_at(self.rankings_seq(result_type), e).entries@
    }

    /// An empty dataset, the builder's starting point.
    pub(crate) fn empty() -> (r: WCA)
        ensures
            r.wf(),
            r.persons_seq() =~= Seq::<Competitor>::empty(),
            r.comps_seq() =~= Seq::<ParticipationEntry>::empty(),
            r.records_seq() =~= Seq::<RecordsEntry>::empty(),
            r.rankings_seq(ResultType::Single) =~= Seq::<RankingsEntry>::empty(),
            r.rankings_seq(ResultType::Average) =~= Seq::<RankingsEntry>::empty(),
            r.events_seq() =~= Seq::<Event>::empty(),
            r.duplicate_count() == 0,
    {
        WCA {
            persons: Vec::new(),
            competitions: Vec::new(),
            records: Vec::new(),
            single_rankings: Vec::new(),
            average_rankings: Vec::new(),
            events: Vec::new(),
            duplicate_persons: 0,
        }
    }

    /// How many competitor rows re-used an already-present identifier
    /// (last write wins; the anomaly is surfaced here rather than
    /// swallowed).
    pub fn duplicate_person_count(&self) -> (r: usize)
        ensures
            r == self.duplicate_count(),
    {
        self.duplicate_persons
    }

    /// The number of distinct competitions competitor `id` appears in, or
    /// nothing for a competitor absent from the results: absence is
    /// distinguishable from a count of zero.
    pub fn number_of_comps(&self, id: &String) -> (r: Option<usize>)
        requires
            self.wf(),
        ensures
            match r {
                Some(n) => self.has_participation(id@) && n == self.comps_of(id@).len(),
                None => !self.has_participation(id@),
            },
    {
        match assoc_position(&self.competitions, id.as_str()) {
            Some(i) => {
                proof {
                    lemma_assoc_idx_unique(self.competitions@, id@, i as int);
                }
                Some(self.competitions[i].competitions.len())
            },
            None => None,
        }
    }

    /// The record store of a competitor, if any.
    pub fn find_records(&self, competitor_id: &String) -> (r: Option<&EventRecords>)
        requires
            self.wf(),
        ensures
            match r {
                Some(er) => self.has_records(competitor_id@) && *er == self.records_of(
                    competitor_id@,
                ) && er.wf(),
                None => !self.has_records(competitor_id@),
            },
    {
        match assoc_position(&self.records, competitor_id.as_str()) {
            Some(i) => {
                proof {
                    lemma_assoc_idx_unique(self.records@, competitor_id@, i as int);
                }
                Some(&self.records[i].records)
            },
            None => None,
        }
    }

    /// The event catalog, in input file order, duplicates kept.
    pub fn find_events(&self) -> (r: &Vec<Event>)
        ensures
            r@ == self.events_seq(),
    {
        &self.events
    }

    /// The ranking list of an event for the asked-for kind, sorted
    /// ascending by result value. An event with no entries of that kind has
    /// no list: the query answers not-found, never an empty list.
    pub fn find_rankings(&self, puzzle_id: &String, result_type: ResultType) -> (r: Option<
        &Vec<Ranking>,
    >)
        requires
            self.wf(),
        ensures
            match r {
                Some(v) => self.has_rankings(result_type, puzzle_id@) && v@ == self.rankings_of(
                    result_type,
                    puzzle_id@,
                ) && sorted_by_time(v@),
                None => !self.has_rankings(result_type, puzzle_id@),
            },
    {
        let store = match result_type {
            ResultType::Single => &self.single_rankings,
            ResultType::Average => &self.average_rankings,
        };
        match assoc_position(store, puzzle_id.as_str()) {
            Some(i) => {
                proof {
                    lemma_assoc_idx_unique(store@, puzzle_id@, i as int);
                }
                Some(&store[i].entries)
            },
            None => None,
        }
    }

    /// Records that competitor `id` appeared in competition `comp_id`.
    /// Idempotent: recording the same pair twice has no further effect.
    pub(crate) fn visited_comp(&mut self, id: String, comp_id: String)
        requires
            old(self).wf_base(),
        ensures
            final(self).wf_base(),
            final(self).persons_seq() == old(self).persons_seq(),
            final(self).records_seq() == old(self).records_seq(),
            final(self).rankings_seq(ResultType::Single) == old(self).rankings_seq(
                ResultType::Single,
            ),
            final(self).rankings_seq(ResultType::Average) == old(self).rankings_seq(
                ResultType::Average,
            ),
            final(self).events_seq() == old(self).events_seq(),
            final(self).duplicate_count() == old(self).duplicate_count(),
            final(self).has_participation(id@),
            forall|o: Seq<char>|
                o != id@ ==> #[trigger] final(self).has_participation(o) == old(
                    self,
                ).has_participation(o),
            forall|o: Seq<char>|
                o != id@ && old(self).has_participation(o) ==> #[trigger] final(self).comps_of(o)
                    == old(self).comps_of(o),
            final(self).comps_of(id@) == (if !old(self).has_participation(id@) {
                seq![comp_id@]
            } else if old(self).comps_of(id@).contains(comp_id@) {
                old(self).comps_of(id@)
            } else {
                old(self).comps_of(id@).push(comp_id@)
            }),
    {
        let ghost s1 = self.competitions@;
        match assoc_position(&self.competitions, id.as_str()) {
            Some(i) => {
                proof {
                    lemma_assoc_idx_unique(s1, id@, i as int);
                }
                let ghost e1 = s1[i as int];
                let mut entry = self.competitions.remove(i);
                let had = contains_string(&entry.competitions, comp_id.as_str());
                if !had {
                    entry.competitions.push(comp_id);
                }
                self.competitions.insert(i, entry);
                proof {
                    let s2 = self.competitions@;
                    assert(s2 =~= s1.update(i as int, s2[i as int]));
                    lemma_assoc_update(s1, s2, i as int);
                    if had {
                        assert(string_views(e1.competitions@).contains(comp_id@)) by {
                            let j = choose|j: int|
                                0 <= j < e1.competitions@.len() && e1.competitions@[j]@ == comp_id@;
                            assert(string_views(e1.competitions@)[j] == comp_id@);
                        }
                        assert(s2[i as int].competitions@ =~= e1.competitions@);
                        assert(final(self).comps_of(id@) == old(self).comps_of(id@));
                    } else {
                        assert(!string_views(e1.competitions@).contains(comp_id@)) by {
                            if string_views(e1.competitions@).contains(comp_id@) {
                                let j = choose|j: int|
                                    0 <= j < string_views(e1.competitions@).len() && string_views(
                                        e1.competitions@,
                                    )[j] == comp_id@;
                                assert(e1.competitions@[j]@ == comp_id@);
                            }
                        }
                        assert(string_views(s2[i as int].competitions@) =~= string_views(
                            e1.competitions@,
                        ).push(comp_id@));
                        assert(distinct_views(s2[i as int].competitions@)) by {
                            assert(forall|j: int|
                                0 <= j < e1.competitions@.len() ==> #[trigger] e1.competitions@[j]@
                                    != comp_id@);
                        }
                    }
                }
            },
            None => {
                let mut cv: Vec<String> = Vec::new();
                cv.push(comp_id);
                let entry = ParticipationEntry { competitor_id: id, competitions: cv };
                self.competitions.push(entry);
                proof {
                    let s2 = self.competitions@;
                    let x = s2.last();
                    assert(s2 =~= s1.insert(s1.len() as int, x));
                    lemma_assoc_insert(s1, s1.len() as int, x);
                    assert(string_views(x.competitions@) =~= seq![comp_id@]);
                }
            },
        }
    }
}

/// The competitors whose identifier has `q` as a literal prefix, in store
/// order.
pub open spec fn prefix_matches(s: Seq<Competitor>, q: Seq<char>) -> Seq<Competitor> {
    s.filter(|c: Competitor| is_prefix(q, c.id@))
}

impl WCA {
    /// Adds a competitor. A duplicate identifier overwrites the stored
    /// competitor (last write wins) and is surfaced through the duplicate
    /// counter.
    pub(crate) fn insert_person(&mut self, c: Competitor)
        requires
            old(self).wf_base(),
            old(self).duplicate_count() < usize::MAX,
        ensures
            final(self).wf_base(),
            final(self).comps_seq() == old(self).comps_seq(),
            final(self).records_seq() == old(self).records_seq(),
            final(self).rankings_seq(ResultType::Single) == old(self).rankings_seq(
                ResultType::Single,
            ),
            final(self).rankings_seq(ResultType::Average) == old(self).rankings_seq(
                ResultType::Average,
            ),
            final(self).events_seq() == old(self).events_seq(),
            final(self).has_person(c.id@),
            final(self).person_of(c.id@) == c,
            forall|o: Seq<char>|
                o != c.id@ ==> #[trigger] final(self).has_person(o) == old(self).has_person(o),
            forall|o: Seq<char>|
                o != c.id@ && old(self).has_person(o) ==> #[trigger] final(self).person_of(o)
                    == old(self).person_of(o),
            final(self).duplicate_count() == old(self).duplicate_count() + (
            if old(self).has_person(c.id@) {
                1int
            } else {
                0int
            }),
    {
        let pos = lower_bound(&self.persons, c.id.as_str());
        let ghost s1 = self.persons@;
        let ghost cid = c.id@;
        proof {
            lemma_ids_sorted_unique(s1);
            lemma_lex_le_refl(cid);
        }
        if pos < self.persons.len() && str_eq(self.persons[pos].id.as_str(), c.id.as_str()) {
            self.persons.remove(pos);
            self.persons.insert(pos, c);
            self.duplicate_persons = self.duplicate_persons + 1;
            proof {
                let s2 = self.persons@;
                assert(s2 =~= s1.update(pos as int, s2[pos as int]));
                assert(ids_sorted(s2)) by {
                    assert(forall|j: int| 0 <= j < s2.len() ==> #[trigger] s2[j].id@ == s1[j].id@);
                }
                lemma_assoc_update(s1, s2, pos as int);
                lemma_assoc_idx_unique(s1, cid, pos as int);
                lemma_assoc_idx_unique(s2, cid, pos as int);
            }
        } else {
            self.persons.insert(pos, c);
            proof {
                let s2 = self.persons@;
                let p = pos as int;
                assert(!assoc_has(s1, cid)) by {
                    if assoc_has(s1, cid) {
                        let j = choose|j: int| 0 <= j < s1.len() && s1[j].key() == cid;
                        assert(s1[j].id@ == cid);
                        if j < p {
                            assert(!lex_le(cid, s1[j].id@));
                        } else {
                            assert(p < s1.len());
                            assert(lex_le(cid, s1[p].id@));
                            if j > p {
                                assert(lex_lt(s1[p].id@, s1[j].id@));
                                lemma_lex_le_antisym(cid, s1[p].id@);
                            }
                            assert(s1[p].id@ == cid);
                        }
                    }
                }
                assert(s2 =~= s1.insert(p, c));
                lemma_assoc_insert(s1, p, c);
                assert(forall|j: int| 0 <= j < s1.len() ==> s1[j].key() != cid);
                assert(ids_sorted(s2)) by {
                    assert forall|a: int, b: int| 0 <= a < b < s2.len() implies lex_lt(
                        s2[a].id@,
                        s2[b].id@,
                    ) by {
                        if a < p && b < p {
                            assert(s2[a] == s1[a] && s2[b] == s1[b]);
                        } else if a < p && b > p {
                            assert(s2[a] == s1[a] && s2[b] == s1[b - 1]);
                        } else if a > p && b > p {
                            assert(s2[a] == s1[a - 1] && s2[b] == s1[b - 1]);
                        } else if a == p {
                            assert(s2[a] == c && s2[b] == s1[b - 1]);
                            assert(b - 1 >= p && p < s1.len());
                            assert(lex_le(cid, s1[p].id@));
                            if b - 1 > p {
                                assert(lex_lt(s1[p].id@, s1[b - 1].id@));
                                lemma_lex_le_trans(cid, s1[p].id@, s1[b - 1].id@);
                            }
                            assert(s1[b - 1].key() != cid);
                        } else {
                            assert(b == p);
                            assert(s2[a] == s1[a] && s2[b] == c);
                            assert(!lex_le(cid, s1[a].id@));
                            lemma_lex_le_total(cid, s1[a].id@);
                            assert(s1[a].key() != cid);
                        }
                    }
                }
                lemma_assoc_idx_unique(s2, cid, p);
            }
        }
    }

    /// Appends an event to the catalog: file order, no deduplication.
    pub(crate) fn push_event(&mut self, e: Event)
        requires
            old(self).wf_base(),
        ensures
            final(self).wf_base(),
            final(self).persons_seq() == old(self).persons_seq(),
            final(self).comps_seq() == old(self).comps_seq(),
            final(self).records_seq() == old(self).records_seq(),
            final(self).rankings_seq(ResultType::Single) == old(self).rankings_seq(
                ResultType::Single,
            ),
            final(self).rankings_seq(ResultType::Average) == old(self).rankings_seq(
                ResultType::Average,
            ),
            final(self).duplicate_count() == old(self).duplicate_count(),
            final(self).events_seq() == old(self).events_seq().push(e),
    {
        self.events.push(e);
    }

    /// Looks up a competitor by identifier.
    pub fn find_competitor(&self, id: &String) -> (r: Option<&Competitor>)
        requires
            self.wf(),
        ensures
            match r {
                Some(c) => self.has_person(id@) && *c == self.person_of(id@),
                None => !self.has_person(id@),
            },
    {
        proof {
            lemma_ids_sorted_unique(self.persons@);
        }
        let pos = lower_bound(&self.persons, id.as_str());
        if pos < self.persons.len() && str_eq(self.persons[pos].id.as_str(), id.as_str()) {
            proof {
                lemma_assoc_idx_unique(self.persons@, id@, pos as int);
            }
            Some(&self.persons[pos])
        } else {
            proof {
                let s = self.persons@;
                lemma_lex_le_refl(id@);
                if self.has_person(id@) {
                    let j = choose|j: int| 0 <= j < s.len() && s[j].key() == id@;
                    assert(s[j].id@ == id@);
                    if j < pos {
                        assert(!lex_le(id@, s[j].id@));
                    } else {
                        assert(pos < s.len());
                        assert(lex_le(id@, s[pos as int].id@));
                        if j > pos {
                            assert(lex_lt(s[pos as int].id@, s[j].id@));
                            lemma_lex_le_antisym(id@, s[pos as int].id@);
                        }
                        assert(s[pos as int].id@ == id@);
                    }
                }
            }
            None
        }
    }

    /// Every competitor whose identifier starts with `query`, in ascending
    /// identifier order. The empty prefix matches everyone; a full
    /// identifier matches exactly its competitor.
    #[verifier::rlimit(50)]
    #[verifier::spinoff_prover]
    pub fn find_competitors(&self, query: &String) -> (r: Vec<&Competitor>)
        requires
            self.wf(),
        ensures
            r@.len() == prefix_matches(self.persons_seq(), query@).len(),
            forall|k: int|
                0 <= k < r@.len() ==> r@[k] == prefix_matches(self.persons_seq(), query@)[k],
            forall|k1: int, k2: int|
                0 <= k1 < k2 < r@.len() ==> lex_lt(r@[k1].id@, r@[k2].id@),
    {
        let lb = lower_bound(&self.persons, query.as_str());
        let mut out: Vec<&Competitor> = Vec::new();
        let mut i: usize = lb;
        while i < self.persons.len() && str_starts_with(self.persons[i].id.as_str(), query.as_str())
            invariant
                self.wf(),
                lb <= i <= self.persons@.len(),
                forall|j: int| 0 <= j < lb ==> !lex_le(query@, self.persons@[j].id@),
                lb < self.persons@.len() ==> lex_le(query@, self.persons@[lb as int].id@),
                forall|j: int| lb <= j < i ==> is_prefix(query@, #[trigger] self.persons@[j].id@),
                out@.len() == i - lb,
                forall|k: int| 0 <= k < out@.len() ==> out@[k] == self.persons@[lb + k],
            decreases self.persons@.len() - i,
        {
            out.push(&self.persons[i]);
            i = i + 1;
        }
        proof {
            let s = self.persons@;
            let q = query@;
            let pred = |c: Competitor| is_prefix(q, c.id@);
            assert forall|j: int| 0 <= j < lb implies !pred(s[j]) by {
                if is_prefix(q, s[j].id@) {
                    lemma_prefix_le(q, s[j].id@);
                }
            }
            assert forall|j: int| i <= j < s.len() implies !pred(s[j]) by {
                assert(!is_prefix(q, s[i as int].id@));
                if j > i && pred(s[j]) {
                    assert(lex_le(q, s[i as int].id@)) by {
                        if i == lb {
                            assert(lex_le(q, s[lb as int].id@));
                        } else {
                            assert(is_prefix(q, s[i - 1].id@));
                            lemma_prefix_le(q, s[i - 1].id@);
                            assert(lex_lt(s[i - 1].id@, s[i as int].id@));
                            lemma_lex_le_trans(q, s[i - 1].id@, s[i as int].id@);
                        }
                    }
                    assert(lex_lt(s[i as int].id@, s[j].id@));
                    lemma_prefix_between(q, s[i as int].id@, s[j].id@);
                }
            }
            let a = s.take(lb as int);
            let b = s.subrange(lb as int, i as int);
            let cc = s.skip(i as int);
            lemma_filter_all_false(a, pred);
            lemma_filter_all_true(b, pred);
            lemma_filter_all_false(cc, pred);
            Seq::<Competitor>::filter_distributes_over_add(a + b, cc, pred);
            Seq::<Competitor>::filter_distributes_over_add(a, b, pred);
            assert(s =~= (a + b) + cc);
            assert(s.filter(pred) =~= b);
            assert forall|k1: int, k2: int| 0 <= k1 < k2 < out@.len() implies lex_lt(
                out@[k1].id@,
                out@[k2].id@,
            ) by {
                assert(out@[k1] == s[lb + k1] && out@[k2] == s[lb + k2]);
            }
        }
        out
    }
}

/// Prefix search answers exactly the set of competitors whose identifier
/// carries the prefix: everything returned is a stored competitor whose
/// identifier starts with the query, and every such competitor is
/// returned. With `find_competitors`'s contract this holds of its result,
/// for any prefix including the empty one and a full identifier.
pub proof fn lemma_prefix_matches_exact(s: Seq<Competitor>, q: Seq<char>)
    ensures
        forall|i: int|
            0 <= i < prefix_matches(s, q).len() ==> is_prefix(
                q,
                (#[trigger] prefix_matches(s, q)[i]).id@,
            ) && s.contains(prefix_matches(s, q)[i]),
        forall|i: int|
            0 <= i < s.len() && is_prefix(q, (#[trigger] s[i]).id@) ==> prefix_matches(
                s,
                q,
            ).contains(s[i]),
{
    let pred = |c: Competitor| is_prefix(q, c.id@);
    assert forall|i: int|
        0 <= i < prefix_matches(s, q).len() implies is_prefix(
        q,
        (#[trigger] prefix_matches(s, q)[i]).id@,
    ) && s.contains(prefix_matches(s, q)[i]) by {
        s.lemma_filter_pred(pred, i);
        s.lemma_filter_len(pred);
        let x = s.filter(pred)[i];
        assert(s.filter(pred).contains(x));
        lemma_filter_member(s, pred, x);
    }
    assert forall|i: int|
        0 <= i < s.len() && is_prefix(q, (#[trigger] s[i]).id@) implies prefix_matches(
        s,
        q,
    ).contains(s[i]) by {
        s.lemma_filter_contains(pred, i);
    }
}

/// A member of a filtered sequence is a member of the sequence.
proof fn lemma_filter_member<A>(s: Seq<A>, pred: spec_fn(A) -> bool, x: A)
    requires
        s.filter(pred).contains(x),
    ensures
        s.contains(x),
    decreases s.len(),
{
    reveal(Seq::filter);
    if s.len() > 0 {
        if s.drop_last().filter(pred).contains(x) {
            lemma_filter_member(s.drop_last(), pred, x);
            let i = choose|i: int| 0 <= i < s.drop_last().len() && s.drop_last()[i] == x;
            assert(s[i] == x);
        } else {
            assert(x == s.last());
            assert(s[s.len() - 1] == x);
        }
    }
}

/// The participation entry of a competitor counts distinct competitions:
/// the stored sequence has no duplicates, so its length is exactly the
/// number of distinct competition identifiers seen — what
/// `number_of_comps` reports.
pub proof fn lemma_comps_distinct(w: WCA, id: Seq<char>)
    requires
        w.wf(),
        w.has_participation(id),
    ensures
        w.comps_of(id).no_duplicates(),
        w.comps_of(id).len() == w.comps_of(id).to_set().len(),
{
    let s = w.comps_seq();
    let j = choose|j: int| 0 <= j < s.len() && s[j].key() == id;
    lemma_assoc_idx_unique(s, id, j);
    assert(distinct_views(s[j].competitions@));
    assert(w.comps_of(id).no_duplicates()) by {
        assert forall|a: int, b: int|
            0 <= a < b < w.comps_of(id).len() implies w.comps_of(id)[a] != w.comps_of(id)[b] by {
            assert(w.comps_of(id)[a] == s[j].competitions@[a]@);
            assert(w.comps_of(id)[b] == s[j].competitions@[b]@);
        }
    }
    w.comps_of(id).unique_seq_to_set();
}

impl WCA {
    /// Creates or overwrites the single result of `(id, puzzle)`. Singles
    /// are ingested before averages: overwriting a record that already has
    /// an average is ruled out, so no average is ever corrupted.
    pub(crate) fn add_single_record(&mut self, id: String, puzzle: String, time: u32)
        requires
            old(self).wf_base(),
            match old(self).record_of(id@, puzzle@) {
                Some(r) => r.average is None,
                None => true,
            },
        ensures
            final(self).wf_base(),
            final(self).persons_seq() == old(self).persons_seq(),
            final(self).comps_seq() == old(self).comps_seq(),
            final(self).rankings_seq(ResultType::Single) == old(self).rankings_seq(
                ResultType::Single,
            ),
            final(self).rankings_seq(ResultType::Average) == old(self).rankings_seq(
                ResultType::Average,
            ),
            final(self).events_seq() == old(self).events_seq(),
            final(self).duplicate_count() == old(self).duplicate_count(),
            final(self).has_records(id@),
            final(self).record_of(id@, puzzle@) == Some(
                Record { single: CompResult { time }, average: None },
            ),
            forall|o: Seq<char>|
                o != id@ ==> #[trigger] final(self).has_records(o) == old(self).has_records(o),
            forall|o: Seq<char>|
                o != id@ && old(self).has_records(o) ==> #[trigger] final(self).records_of(o)
                    == old(self).records_of(o),
            forall|e: Seq<char>|
                e != puzzle@ ==> #[trigger] final(self).record_of(id@, e) == old(self).record_of(
                    id@,
                    e,
                ),
    {
        let ghost s1 = self.records@;
        match assoc_position(&self.records, id.as_str()) {
            Some(i) => {
                proof {
                    lemma_assoc_idx_unique(s1, id@, i as int);
                }
                let mut entry = self.records.remove(i);
                entry.records.set_single(puzzle, time);
                self.records.insert(i, entry);
                proof {
                    let s2 = self.records@;
                    assert(s2 =~= s1.update(i as int, s2[i as int]));
                    lemma_assoc_update(s1, s2, i as int);
                    lemma_assoc_idx_unique(s2, id@, i as int);
                }
            },
            None => {
                let mut er = EventRecords::new();
                er.set_single(puzzle, time);
                self.records.push(RecordsEntry { competitor_id: id, records: er });
                proof {
                    let s2 = self.records@;
                    let x = s2.last();
                    assert(s2 =~= s1.insert(s1.len() as int, x));
                    lemma_assoc_insert(s1, s1.len() as int, x);
                }
            },
        }
    }

    /// Attaches the average result of `(id, puzzle)` and reports whether a
    /// single result was already there. Without one, nothing is stored and
    /// the builder turns the `false` into `MissingPrerequisite`.
    pub(crate) fn add_average_record(&mut self, id: &String, puzzle: &String, time: u32) -> (ok:
        bool)
        requires
            old(self).wf_base(),
        ensures
            final(self).wf_base(),
            final(self).persons_seq() == old(self).persons_seq(),
            final(self).comps_seq() == old(self).comps_seq(),
            final(self).rankings_seq(ResultType::Single) == old(self).rankings_seq(
                ResultType::Single,
            ),
            final(self).rankings_seq(ResultType::Average) == old(self).rankings_seq(
                ResultType::Average,
            ),
            final(self).events_seq() == old(self).events_seq(),
            final(self).duplicate_count() == old(self).duplicate_count(),
            ok == (old(self).record_of(id@, puzzle@) is Some),
            match old(self).record_of(id@, puzzle@) {
                Some(r) => final(self).record_of(id@, puzzle@) == Some(
                    Record { single: r.single, average: Some(CompResult { time }) },
                ),
                None => final(self).record_of(id@, puzzle@) is None,
            },
            forall|o: Seq<char>|
                #[trigger] final(self).has_records(o) == old(self).has_records(o),
            forall|o: Seq<char>|
                o != id@ && old(self).has_records(o) ==> #[trigger] final(self).records_of(o)
                    == old(self).records_of(o),
            forall|e: Seq<char>|
                e != puzzle@ ==> #[trigger] final(self).record_of(id@, e) == old(self).record_of(
                    id@,
                    e,
                ),
    {
        let ghost s1 = self.records@;
        match assoc_position(&self.records, id.as_str()) {
            Some(i) => {
                proof {
                    lemma_assoc_idx_unique(s1, id@, i as int);
                }
                let mut entry = self.records.remove(i);
                let ok = entry.records.set_average(puzzle, time);
                self.records.insert(i, entry);
                proof {
                    let s2 = self.records@;
                    assert(s2 =~= s1.update(i as int, s2[i as int]));
                    lemma_assoc_update(s1, s2, i as int);
                    lemma_assoc_idx_unique(s2, id@, i as int);
                }
                ok
            },
            None => false,
        }
    }

    /// Appends an entry to an event's single-ranking working list.
    pub(crate) fn add_single_ranking(&mut self, puzzle_id: String, best: u32, competitor_id: String)
        requires
            old(self).wf_base(),
        ensures
            final(self).wf_base(),
            final(self).persons_seq() == old(self).persons_seq(),
            final(self).comps_seq() == old(self).comps_seq(),
            final(self).records_seq() == old(self).records_seq(),
            final(self).rankings_seq(ResultType::Average) == old(self).rankings_seq(
                ResultType::Average,
            ),
            final(self).events_seq() == old(self).events_seq(),
            final(self).duplicate_count() == old(self).duplicate_count(),
            final(self).has_rankings(ResultType::Single, puzzle_id@),
            ranking_views(final(self).rankings_of(ResultType::Single, puzzle_id@)) == (
            if old(self).has_rankings(ResultType::Single, puzzle_id@) {
                ranking_views(old(self).rankings_of(ResultType::Single, puzzle_id@))
            } else {
                Seq::<(u32, Seq<char>)>::empty()
            }).push((best, competitor_id@)),
            forall|e: Seq<char>|
                e != puzzle_id@ ==> #[trigger] final(self).has_rankings(ResultType::Single, e)
                    == old(self).has_rankings(ResultType::Single, e),
            forall|e: Seq<char>|
                e != puzzle_id@ && old(self).has_rankings(ResultType::Single, e)
                    ==> #[trigger] final(self).rankings_of(ResultType::Single, e) == old(
                    self,
                ).rankings_of(ResultType::Single, e),
    {
        push_ranking(&mut self.single_rankings, puzzle_id, best, competitor_id);
    }

    /// Appends an entry to an event's average-ranking working list.
    pub(crate) fn add_average_ranking(
        &mut self,
        puzzle_id: String,
        best: u32,
        competitor_id: String,
    )
        requires
            old(self).wf_base(),
        ensures
            final(self).wf_base(),
            final(self).persons_seq() == old(self).persons_seq(),
            final(self).comps_seq() == old(self).comps_seq(),
            final(self).records_seq() == old(self).records_seq(),
            final(self).rankings_seq(ResultType::Single) == old(self).rankings_seq(
                ResultType::Single,
            ),
            final(self).events_seq() == old(self).events_seq(),
            final(self).duplicate_count() == old(self).duplicate_count(),
            final(self).has_rankings(ResultType::Average, puzzle_id@),
            ranking_views(final(self).rankings_of(ResultType::Average, puzzle_id@)) == (
            if old(self).has_rankings(ResultType::Average, puzzle_id@) {
                ranking_views(old(self).rankings_of(ResultType::Average, puzzle_id@))
            } else {
                Seq::<(u32, Seq<char>)>::empty()
            }).push((best, competitor_id@)),
            forall|e: Seq<char>|
                e != puzzle_id@ ==> #[trigger] final(self).has_rankings(ResultType::Average, e)
                    == old(self).has_rankings(ResultType::Average, e),
            forall|e: Seq<char>|
                e != puzzle_id@ && old(self).has_rankings(ResultType::Average, e)
                    ==> #[trigger] final(self).rankings_of(ResultType::Average, e) == old(
                    self,
                ).rankings_of(ResultType::Average, e),
    {
        push_ranking(&mut self.average_rankings, puzzle_id, best, competitor_id);
    }

    /// Sorts every ranking list of the given kind, ascending by result
    /// value and stable, so that ties keep their source order.
    pub(crate) fn sort_rankings(&mut self, result_type: ResultType)
        requires
            old(self).wf_base(),
        ensures
            final(self).wf_base(),
            final(self).persons_seq() == old(self).persons_seq(),
            final(self).comps_seq() == old(self).comps_seq(),
            final(self).records_seq() == old(self).records_seq(),
            final(self).events_seq() == old(self).events_seq(),
            final(self).duplicate_count() == old(self).duplicate_count(),
            forall|rt: ResultType|
                rt != result_type ==> #[trigger] final(self).rankings_seq(rt) == old(
                    self,
                ).rankings_seq(rt),
            forall|e: Seq<char>|
                #[trigger] final(self).has_rankings(result_type, e) == old(self).has_rankings(
                    result_type,
                    e,
                ),
            forall|e: Seq<char>|
                old(self).has_rankings(result_type, e) ==> sorted_by_time(
                    #[trigger] final(self).rankings_of(result_type, e),
                ),
            forall|e: Seq<char>, t: u32|
                old(self).has_rankings(result_type, e) ==> #[trigger] time_filter(
                    final(self).rankings_of(result_type, e),
                    t,
                ) == time_filter(old(self).rankings_of(result_type, e), t),
    {
        match result_type {
            ResultType::Single => sort_store(&mut self.single_rankings),
            ResultType::Average => sort_store(&mut self.average_rankings),
        }
    }
}

/// Appends a `(best, competitor)` entry to the working list of
/// `puzzle_id`, creating the list if the event has none yet.
fn push_ranking(store: &mut Vec<RankingsEntry>, puzzle_id: String, best: u32, competitor_id: String)
    requires
        keys_unique(old(store)@),
    ensures
        keys_unique(final(store)@),
        assoc_has(final(store)@, puzzle_id@),
        ranking_views(assoc_at(final(store)@, puzzle_id@).entries@) == (
        if assoc_has(old(store)@, puzzle_id@) {
            ranking_views(assoc_at(old(store)@, puzzle_id@).entries@)
        } else {
            Seq::<(u32, Seq<char>)>::empty()
        }).push((best, competitor_id@)),
        forall|e: Seq<char>|
            e != puzzle_id@ ==> #[trigger] assoc_has(final(store)@, e) == assoc_has(
                old(store)@,
                e,
            ),
        forall|e: Seq<char>|
            e != puzzle_id@ && assoc_has(old(store)@, e) ==> #[trigger] assoc_at(final(store)@, e)
                == assoc_at(old(store)@, e),
{
    let ghost s1 = store@;
    let ranking = Ranking { result: CompResult { time: best }, competitor_id };
    match assoc_position(store, puzzle_id.as_str()) {
        Some(i) => {
            proof {
                lemma_assoc_idx_unique(s1, puzzle_id@, i as int);
            }
            let ghost e1 = s1[i as int];
            let mut entry = store.remove(i);
            entry.entries.push(ranking);
            store.insert(i, entry);
            proof {
                let s2 = store@;
                assert(s2 =~= s1.update(i as int, s2[i as int]));
                lemma_assoc_update(s1, s2, i as int);
                lemma_assoc_idx_unique(s2, puzzle_id@, i as int);
                assert(ranking_views(s2[i as int].entries@) =~= ranking_views(e1.entries@).push(
                    (best, competitor_id@),
                ));
            }
        },
        None => {
            let mut entries: Vec<Ranking> = Vec::new();
            entries.push(ranking);
            store.push(RankingsEntry { event_id: puzzle_id, entries });
            proof {
                let s2 = store@;
                let x = s2.last();
                assert(s2 =~= s1.insert(s1.len() as int, x));
                lemma_assoc_insert(s1, s1.len() as int, x);
                assert(ranking_views(x.entries@) =~= Seq::<(u32, Seq<char>)>::empty().push(
                    (best, competitor_id@),
                ));
            }
        },
    }
}

/// Sorts the entry list of every event in the store, ascending by result
/// value and stable.
fn sort_store(store: &mut Vec<RankingsEntry>)
    requires
        keys_unique(old(store)@),
    ensures
        keys_unique(final(store)@),
        forall|e: Seq<char>|
            #[trigger] assoc_has(final(store)@, e) == assoc_has(old(store)@, e),
        forall|e: Seq<char>|
            assoc_has(old(store)@, e) ==> sorted_by_time(
                #[trigger] assoc_at(final(store)@, e).entries@,
            ),
        forall|e: Seq<char>, t: u32|
            assoc_has(old(store)@, e) ==> #[trigger] time_filter(
                assoc_at(final(store)@, e).entries@,
                t,
            ) == time_filter(assoc_at(old(store)@, e).entries@, t),
{
    let ghost s1 = store@;
    let mut i: usize = 0;
    while i < store.len()
        invariant
            keys_unique(s1),
            i <= store@.len(),
            store@.len() == s1.len(),
            forall|j: int| 0 <= j < s1.len() ==> #[trigger] store@[j].event_id == s1[j].event_id,
            forall|j: int| i <= j < s1.len() ==> #[trigger] store@[j] == s1[j],
            forall|j: int| 0 <= j < i ==> sorted_by_time(#[trigger] store@[j].entries@),
            forall|j: int, t: u32|
                0 <= j < i ==> #[trigger] time_filter(store@[j].entries@, t) == time_filter(
                    s1[j].entries@,
                    t,
                ),
        decreases store@.len() - i,
    {
        let mut entry = store.remove(i);
        entry.entries = sort_by_time(entry.entries);
        let ghost mid = store@;
        store.insert(i, entry);
        proof {
            assert(store@ =~= mid.insert(i as int, store@[i as int]));
            assert(forall|j: int|
                0 <= j < s1.len() && j != i ==> #[trigger] store@[j] == mid.insert(
                    i as int,
                    store@[i as int],
                )[j]);
        }
        i = i + 1;
    }
    proof {
        let s2 = store@;
        assert(keys_unique(s2)) by {
            assert(forall|j: int| 0 <= j < s1.len() ==> #[trigger] s2[j].key() == s1[j].key());
        }
        assert forall|e: Seq<char>| #[trigger] assoc_has(s2, e) == assoc_has(s1, e) by {
            if assoc_has(s1, e) {
                let j = choose|j: int| 0 <= j < s1.len() && s1[j].key() == e;
                assert(s2[j].key() == e);
            }
            if assoc_has(s2, e) {
                let j = choose|j: int| 0 <= j < s2.len() && s2[j].key() == e;
                assert(s1[j].key() == e);
            }
        }
        assert forall|e: Seq<char>| assoc_has(s1, e) implies sorted_by_time(
            #[trigger] assoc_at(s2, e).entries@,
        ) && (forall|t: u32|
            #[trigger] time_filter(assoc_at(s2, e).entries@, t) == time_filter(
                assoc_at(s1, e).entries@,
                t,
            )) by {
            let j = choose|j: int| 0 <= j < s1.len() && s1[j].key() == e;
            lemma_assoc_idx_unique(s1, e, j);
            assert(s2[j].key() == e);
            lemma_assoc_idx_unique(s2, e, j);
        }
    }
}

/// A count clamped into `u32` (the stored counter's width).
pub open spec fn clamped(n: nat) -> u32 {
    if n > u32::MAX {
        u32::MAX
    } else {
        n as u32
    }
}

/// The `(competitor, single, average)` view of a joined ranking record.
pub open spec fn rwc_view(r: RecordWithCompetitor) -> (Seq<char>, CompResult, Option<CompResult>) {
    (r.competitor_id@, r.single, r.average)
}

/// The views of a sequence of joined ranking records.
pub open spec fn rwc_views(s: Seq<RecordWithCompetitor>) -> Seq<
    (Seq<char>, CompResult, Option<CompResult>),
> {
    s.map_values(|r: RecordWithCompetitor| rwc_view(r))
}

/// The views holding single-result value `t`, in order.
pub open spec fn pair_time_filter(
    s: Seq<(Seq<char>, CompResult, Option<CompResult>)>,
    t: u32,
) -> Seq<(Seq<char>, CompResult, Option<CompResult>)> {
    s.filter(|p: (Seq<char>, CompResult, Option<CompResult>)| p.1.time == t)
}

/// Filtering by single-result value commutes with taking views.
pub proof fn lemma_rwc_filter_views(s: Seq<RecordWithCompetitor>, t: u32)
    ensures
        pair_time_filter(rwc_views(s), t) == rwc_views(time_filter(s, t)),
    decreases s.len(),
{
    reveal(Seq::filter);
    let vp = |p: (Seq<char>, CompResult, Option<CompResult>)| p.1.time == t;
    let xp = |x: RecordWithCompetitor| x.time_key() == t;
    if s.len() == 0 {
        assert(rwc_views(s) =~= Seq::<(Seq<char>, CompResult, Option<CompResult>)>::empty());
        assert(time_filter(s, t) =~= Seq::<RecordWithCompetitor>::empty());
        assert(rwc_views(time_filter(s, t)) =~= Seq::<
            (Seq<char>, CompResult, Option<CompResult>),
        >::empty());
    } else {
        lemma_rwc_filter_views(s.drop_last(), t);
        let vs = rwc_views(s);
        assert(vs.drop_last() =~= rwc_views(s.drop_last()));
        assert(vs.last() == rwc_view(s.last()));
        if s.last().single.time == t {
            assert(vs.filter(vp) == vs.drop_last().filter(vp).push(vs.last()));
            assert(s.filter(xp) == s.drop_last().filter(xp).push(s.last()));
            assert(rwc_views(s.drop_last().filter(xp).push(s.last())) =~= rwc_views(
                s.drop_last().filter(xp),
            ).push(rwc_view(s.last())));
        } else {
            assert(vs.filter(vp) == vs.drop_last().filter(vp));
            assert(s.filter(xp) == s.drop_last().filter(xp));
        }
    }
}

impl WCA {
    /// The competition count a competitor receives in the backfill pass:
    /// the number of distinct competitions, zero for a competitor absent
    /// from the results.
    pub open spec fn backfilled_count(self, id: Seq<char>) -> u32 {
        if self.has_participation(id) {
            clamped(self.comps_of(id).len())
        } else {
            0
        }
    }

    /// Sets every competitor's `competition_count` from the participation
    /// index. Runs exactly once, after ingestion and before the dataset is
    /// published, so no query ever sees a stale zero count.
    pub(crate) fn update_competition_count_cache(&mut self)
        requires
            old(self).wf_base(),
        ensures
            final(self).wf_base(),
            final(self).comps_seq() == old(self).comps_seq(),
            final(self).records_seq() == old(self).records_seq(),
            final(self).rankings_seq(ResultType::Single) == old(self).rankings_seq(
                ResultType::Single,
            ),
            final(self).rankings_seq(ResultType::Average) == old(self).rankings_seq(
                ResultType::Average,
            ),
            final(self).events_seq() == old(self).events_seq(),
            final(self).duplicate_count() == old(self).duplicate_count(),
            final(self).persons_seq().len() == old(self).persons_seq().len(),
            forall|o: Seq<char>|
                #[trigger] final(self).has_person(o) == old(self).has_person(o),
            forall|o: Seq<char>|
                old(self).has_person(o) ==> #[trigger] final(self).person_of(o).id == old(
                    self,
                ).person_of(o).id,
            forall|o: Seq<char>|
                old(self).has_person(o) ==> #[trigger] final(self).person_of(o).name == old(
                    self,
                ).person_of(o).name,
            forall|o: Seq<char>|
                old(self).has_person(o) ==> #[trigger] final(self).person_of(o).country == old(
                    self,
                ).person_of(o).country,
            forall|o: Seq<char>|
                old(self).has_person(o) ==> #[trigger] final(self).person_of(o).gender == old(
                    self,
                ).person_of(o).gender,
            forall|o: Seq<char>|
                old(self).has_person(o) ==> #[trigger] final(self).person_of(o).competition_count
                    == old(self).backfilled_count(o),
    {
        let ghost s1 = self.persons@;
        let ghost orig = *self;
        let mut i: usize = 0;
        while i < self.persons.len()
            invariant
                orig.wf_base(),
                s1 == orig.persons_seq(),
                self.competitions@ == orig.comps_seq(),
                self.records@ == orig.records_seq(),
                self.single_rankings@ == orig.rankings_seq(ResultType::Single),
                self.average_rankings@ == orig.rankings_seq(ResultType::Average),
                self.events@ == orig.events_seq(),
                self.duplicate_persons == orig.duplicate_count(),
                i <= self.persons@.len(),
                self.persons@.len() == s1.len(),
                forall|j: int| 0 <= j < s1.len() ==> #[trigger] self.persons@[j].id == s1[j].id,
                forall|j: int| 0 <= j < s1.len() ==> #[trigger] self.persons@[j].name == s1[j].name,
                forall|j: int|
                    0 <= j < s1.len() ==> #[trigger] self.persons@[j].country == s1[j].country,
                forall|j: int|
                    0 <= j < s1.len() ==> #[trigger] self.persons@[j].gender == s1[j].gender,
                forall|j: int| i <= j < s1.len() ==> #[trigger] self.persons@[j] == s1[j],
                forall|j: int|
                    0 <= j < i ==> #[trigger] self.persons@[j].competition_count
                        == orig.backfilled_count(s1[j].id@),
            decreases s1.len() - i,
        {
            let n: usize = match assoc_position(&self.competitions, self.persons[i].id.as_str()) {
                Some(j) => {
                    proof {
                        lemma_assoc_idx_unique(
                            self.competitions@,
                            self.persons@[i as int].id@,
                            j as int,
                        );
                    }
                    self.competitions[j].competitions.len()
                },
                None => 0,
            };
            let count: u32 = if n > (u32::MAX as usize) {
                u32::MAX
            } else {
                n as u32
            };
            let ghost mid = self.persons@;
            let mut c = self.persons.remove(i);
            c.competition_count = count;
            self.persons.insert(i, c);
            proof {
                assert(self.persons@ =~= mid.update(i as int, self.persons@[i as int]));
            }
            i = i + 1;
        }
        proof {
            let s2 = self.persons@;
            assert(ids_sorted(s2)) by {
                assert(forall|j: int| 0 <= j < s1.len() ==> #[trigger] s2[j].id@ == s1[j].id@);
            }
            lemma_ids_sorted_unique(s1);
            lemma_ids_sorted_unique(s2);
            assert forall|o: Seq<char>| #[trigger]
                self.has_person(o) == old(self).has_person(o) by {
                assert(forall|j: int| 0 <= j < s1.len() ==> #[trigger] s2[j].key() == s1[j].key());
                if assoc_has(s1, o) {
                    let j = choose|j: int| 0 <= j < s1.len() && s1[j].key() == o;
                    assert(s2[j].key() == o);
                }
                if assoc_has(s2, o) {
                    let j = choose|j: int| 0 <= j < s2.len() && s2[j].key() == o;
                    assert(s1[j].key() == o);
                }
            }
            assert forall|o: Seq<char>| old(self).has_person(o) implies #[trigger] self.person_of(
                o,
            ) == s2[assoc_idx(s1, o)] && old(self).person_of(o) == s1[assoc_idx(s1, o)] by {
                let j = choose|j: int| 0 <= j < s1.len() && s1[j].key() == o;
                lemma_assoc_idx_unique(s1, o, j);
                assert(s2[j].key() == o);
                lemma_assoc_idx_unique(s2, o, j);
            }
            assert forall|o: Seq<char>| old(self).has_person(o) implies #[trigger] self.person_of(
                o,
            ).name == old(self).person_of(o).name by {
                assert(self.person_of(o) == s2[assoc_idx(s1, o)]);
            }
            assert forall|o: Seq<char>| old(self).has_person(o) implies #[trigger] self.person_of(
                o,
            ).id == old(self).person_of(o).id by {
                assert(self.person_of(o) == s2[assoc_idx(s1, o)]);
            }
            assert forall|o: Seq<char>| old(self).has_person(o) implies #[trigger] self.person_of(
                o,
            ).country == old(self).person_of(o).country by {
                assert(self.person_of(o) == s2[assoc_idx(s1, o)]);
            }
            assert forall|o: Seq<char>| old(self).has_person(o) implies #[trigger] self.person_of(
                o,
            ).gender == old(self).person_of(o).gender by {
                assert(self.person_of(o) == s2[assoc_idx(s1, o)]);
            }
            assert forall|o: Seq<char>| old(self).has_person(o) implies #[trigger] self.person_of(
                o,
            ).competition_count == old(self).backfilled_count(o) by {
                let j = assoc_idx(s1, o);
                assert(self.person_of(o) == s2[j]);
                assert(s1[j].id@ == o);
            }
        }
    }

    /// The `(competitor, single, average)` views joined from the result
    /// store for event `e` and the given competitor identifiers, in the
    /// identifiers' order, competitors without a result for `e` left out.
    pub open spec fn joined_views(self, e: Seq<char>, ids: Seq<Seq<char>>) -> Seq<
        (Seq<char>, CompResult, Option<CompResult>),
    >
        decreases ids.len(),
    {
        if ids.len() == 0 {
            Seq::empty()
        } else {
            self.joined_views(e, ids.drop_last()) + (match self.record_of(ids.last(), e) {
                Some(r) => seq![(ids.last(), r.single, r.average)],
                None => Seq::empty(),
            })
        }
    }

    /// For the given competitors, joins each one's single and average for
    /// the event from the result store, silently skipping competitors with
    /// no result for it, and sorts ascending by single value (stable).
    pub fn find_rankings_for(&self, puzzle_id: &String, ids: Vec<String>) -> (r: Vec<
        RecordWithCompetitor,
    >)
        requires
            self.wf(),
        ensures
            sorted_by_time(r@),
            forall|t: u32|
                #[trigger] pair_time_filter(rwc_views(r@), t) == pair_time_filter(
                    self.joined_views(puzzle_id@, string_views(ids@)),
                    t,
                ),
    {
        let mut unsorted: Vec<RecordWithCompetitor> = Vec::new();
        let mut k: usize = 0;
        proof {
            assert(string_views(ids@.take(0)) =~= Seq::<Seq<char>>::empty());
            assert(rwc_views(unsorted@) =~= Seq::<
                (Seq<char>, CompResult, Option<CompResult>),
            >::empty());
        }
        while k < ids.len()
            invariant
                self.wf(),
                k <= ids@.len(),
                rwc_views(unsorted@) == self.joined_views(
                    puzzle_id@,
                    string_views(ids@.take(k as int)),
                ),
            decreases ids@.len() - k,
        {
            let ghost u0 = unsorted@;
            let idk = &ids[k];
            match self.find_records(idk) {
                Some(er) => {
                    match er.get(puzzle_id) {
                        Some(rec) => {
                            unsorted.push(
                                RecordWithCompetitor {
                                    competitor_id: idk.clone(),
                                    single: rec.single,
                                    average: rec.average,
                                },
                            );
                        },
                        None => {},
                    }
                },
                None => {},
            }
            proof {
                let vt1 = string_views(ids@.take(k as int));
                let vt2 = string_views(ids@.take(k + 1 as int));
                assert(vt2.drop_last() =~= vt1);
                assert(vt2.last() == ids@[k as int]@);
                assert(vt2.len() > 0);
                match self.record_of(ids@[k as int]@, puzzle_id@) {
                    Some(r) => {
                        assert(unsorted@ == u0.push(unsorted@.last()));
                        assert(rwc_views(unsorted@) =~= rwc_views(u0).push(
                            rwc_view(unsorted@.last()),
                        ));
                        assert(rwc_views(unsorted@) =~= self.joined_views(puzzle_id@, vt1) + seq![
                            (ids@[k as int]@, r.single, r.average),
                        ]);
                    },
                    None => {
                        assert(rwc_views(unsorted@) =~= self.joined_views(puzzle_id@, vt1)
                            + Seq::<(Seq<char>, CompResult, Option<CompResult>)>::empty());
                    },
                }
            }
            k = k + 1;
        }
        proof {
            assert(ids@.take(ids@.len() as int) =~= ids@);
        }
        let ghost u = unsorted@;
        let r = sort_by_time(unsorted);
        proof {
            assert forall|t: u32| #[trigger]
                pair_time_filter(rwc_views(r@), t) == pair_time_filter(
                    self.joined_views(puzzle_id@, string_views(ids@)),
                    t,
                ) by {
                lemma_rwc_filter_views(r@, t);
                lemma_rwc_filter_views(u, t);
            }
        }
        r
    }
}

/// The position of the first identifier not below `id` in a sorted
/// identity store.
fn lower_bound(v: &Vec<Competitor>, id: &str) -> (r: usize)
    requires
        ids_sorted(v@),
    ensures
        r <= v@.len(),
        forall|j: int| 0 <= j < r ==> !lex_le(id@, v@[j].id@),
        r < v@.len() ==> lex_le(id@, v@[r as int].id@),
{
    let mut lo: usize = 0;
    let mut hi: usize = v.len();
    while lo < hi
        invariant
            lo <= hi <= v@.len(),
            ids_sorted(v@),
            forall|j: int| 0 <= j < lo ==> !lex_le(id@, v@[j].id@),
            forall|j: int| hi <= j < v@.len() ==> lex_le(id@, #[trigger] v@[j].id@),
        decreases hi - lo,
    {
        let mid = lo + (hi - lo) / 2;
        if str_le(id, v[mid].id.as_str()) {
            proof {
                assert forall|j: int| mid <= j < v@.len() implies lex_le(
                    id@,
                    #[trigger] v@[j].id@,
                ) by {
                    if j > mid {
                        assert(lex_lt(v@[mid as int].id@, v@[j].id@));
                        lemma_lex_le_trans(id@, v@[mid as int].id@, v@[j].id@);
                    }
                }
            }
            hi = mid;
        } else {
            proof {
                assert forall|j: int| 0 <= j <= mid implies !lex_le(id@, v@[j].id@) by {
                    if j < mid && lex_le(id@, v@[j].id@) {
                        assert(lex_lt(v@[j].id@, v@[mid as int].id@));
                        lemma_lex_le_trans(id@, v@[j].id@, v@[mid as int].id@);
                    }
                }
            }
            lo = mid + 1;
        }
    }
    lo
}

/// Decides whether some string of `v` reads as `s`.
fn contains_string(v: &Vec<String>, s: &str) -> (r: bool)
    ensures
        r == exists|i: int| 0 <= i < v@.len() && v@[i]@ == s@,
{
    let mut i: usize = 0;
    while i < v.len()
        invariant
            i <= v@.len(),
            forall|j: int| 0 <= j < i ==> v@[j]@ != s@,
        decreases v@.len() - i,
    {
        if str_eq(v[i].as_str(), s) {
            return true;
        }
        i = i + 1;
    }
    false
}

} // verus!
