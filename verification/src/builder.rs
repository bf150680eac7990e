//! The dataset builder: five sequential stages, one per input file, in
//! dependency order — persons, results (participation), single ranks,
//! average ranks, events — followed by the competition-count backfill.
//!
//! Any stage failure aborts construction: there is no partial, queryable
//! dataset on failure.

use vstd::prelude::*;

use crate::assoc::lemma_assoc_idx_unique;
use crate::assoc::Keyed;
use crate::parse::data_rows;
use crate::parse::digits_val;
use crate::parse::is_i32_str;
use crate::parse::is_i32_token;
use crate::parse::parse_u32;
use crate::parse::read_rows;
use crate::parse::u32_ok;
use crate::sort::sorted_by_time;
use crate::sort::time_filter;
use crate::sort::TimeKeyed;
use crate::types::CompResult;
use crate::types::Competitor;
use crate::types::Event;
use crate::types::Gender;
use crate::types::IngestionError;
use crate::types::Ranking;
use crate::types::Record;
use crate::types::ResultType;
use crate::types::SourceFile;
use crate::wca::ranking_views;
use crate::wca::string_views;
use crate::wca::WCA;

verus! {

/// A well-formed competitor row: five fields, the sub-identifier numeric.
pub open spec fn person_row_ok(f: Seq<Seq<char>>) -> bool {
    f.len() == 5 && is_i32_str(f[1])
}

/// A well-formed result row: at least eight fields, read positionally
/// (field 0 is the competition, field 7 the competitor).
pub open spec fn result_row_ok(f: Seq<Seq<char>>) -> bool {
    f.len() >= 8
}

/// A well-formed rank row: six fields, the four rank columns numeric.
pub open spec fn rank_row_ok(f: Seq<Seq<char>>) -> bool {
    f.len() == 6 && u32_ok(f[2]) && u32_ok(f[3]) && u32_ok(f[4]) && u32_ok(f[5])
}

/// A well-formed event row: an identifier and a display name.
pub open spec fn event_row_ok(f: Seq<Seq<char>>) -> bool {
    f.len() == 2
}

/// Every competitor row is well-formed.
pub open spec fn persons_rows_ok(rows: Seq<Seq<Seq<char>>>) -> bool {
    forall|i: int| 0 <= i < rows.len() ==> person_row_ok(#[trigger] rows[i])
}

/// Every result row is well-formed.
pub open spec fn results_rows_ok(rows: Seq<Seq<Seq<char>>>) -> bool {
    forall|i: int| 0 <= i < rows.len() ==> result_row_ok(#[trigger] rows[i])
}

/// Every rank row is well-formed.
pub open spec fn ranks_rows_ok(rows: Seq<Seq<Seq<char>>>) -> bool {
    forall|i: int| 0 <= i < rows.len() ==> rank_row_ok(#[trigger] rows[i])
}

/// Every event row is well-formed.
pub open spec fn events_rows_ok(rows: Seq<Seq<Seq<char>>>) -> bool {
    forall|i: int| 0 <= i < rows.len() ==> event_row_ok(#[trigger] rows[i])
}

/// Some competitor row carries identifier `id`.
pub open spec fn has_person_row(rows: Seq<Seq<Seq<char>>>, id: Seq<char>) -> bool {
    exists|i: int| 0 <= i < rows.len() && #[trigger] rows[i][0] == id
}

/// The last competitor row carrying identifier `id` (last write wins).
pub open spec fn find_last_person(rows: Seq<Seq<Seq<char>>>, id: Seq<char>) -> Option<
    Seq<Seq<char>>,
>
    decreases rows.len(),
{
    if rows.len() == 0 {
        None
    } else if rows.last()[0] == id {
        Some(rows.last())
    } else {
        find_last_person(rows.drop_last(), id)
    }
}

/// Field `k` of the last competitor row carrying `id`.
pub open spec fn last_person_field(rows: Seq<Seq<Seq<char>>>, id: Seq<char>, k: int) -> Seq<char> {
    match find_last_person(rows, id) {
        Some(f) => f[k],
        None => Seq::empty(),
    }
}

/// Some result row names competitor `id` (field 7).
pub open spec fn has_result_person(rows: Seq<Seq<Seq<char>>>, id: Seq<char>) -> bool {
    exists|i: int| 0 <= i < rows.len() && #[trigger] rows[i][7] == id
}

/// Some result row pairs competitor `id` with competition `c`.
pub open spec fn result_comp_seen(rows: Seq<Seq<Seq<char>>>, id: Seq<char>, c: Seq<char>) -> bool {
    exists|i: int| 0 <= i < rows.len() && #[trigger] rows[i][7] == id && #[trigger] rows[i][0] == c
}

/// Some rank row belongs to competitor `id`.
pub open spec fn has_rank_person(rows: Seq<Seq<Seq<char>>>, id: Seq<char>) -> bool {
    exists|i: int| 0 <= i < rows.len() && #[trigger] rows[i][0] == id
}

/// Some rank row belongs to the pair `(id, e)`.
pub open spec fn has_rank_row(rows: Seq<Seq<Seq<char>>>, id: Seq<char>, e: Seq<char>) -> bool {
    exists|i: int|
        0 <= i < rows.len() && #[trigger] rows[i][0] == id && #[trigger] rows[i][1] == e
}

/// Some rank row belongs to event `e`.
pub open spec fn has_rank_event(rows: Seq<Seq<Seq<char>>>, e: Seq<char>) -> bool {
    exists|i: int| 0 <= i < rows.len() && #[trigger] rows[i][1] == e
}

/// The last rank row of the pair `(id, e)` (a later row overwrites).
pub open spec fn find_last_rank(rows: Seq<Seq<Seq<char>>>, id: Seq<char>, e: Seq<char>) -> Option<
    Seq<Seq<char>>,
>
    decreases rows.len(),
{
    if rows.len() == 0 {
        None
    } else if rows.last()[0] == id && rows.last()[1] == e {
        Some(rows.last())
    } else {
        find_last_rank(rows.drop_last(), id, e)
    }
}

/// A pair's presence is what the last-row lookup reports.
pub proof fn lemma_find_last_rank_some(rows: Seq<Seq<Seq<char>>>, id: Seq<char>, e: Seq<char>)
    ensures
        (find_last_rank(rows, id, e) is Some) == has_rank_row(rows, id, e),
    decreases rows.len(),
{
    if rows.len() > 0 {
        lemma_find_last_rank_some(rows.drop_last(), id, e);
        if rows.last()[0] == id && rows.last()[1] == e {
            assert(rows[rows.len() - 1][0] == id && rows[rows.len() - 1][1] == e);
        } else {
            assert forall|i: int|
                0 <= i < rows.len() && #[trigger] rows[i][0] == id && #[trigger] rows[i][1]
                    == e implies has_rank_row(rows.drop_last(), id, e) by {
                assert(rows.drop_last()[i][0] == id && rows.drop_last()[i][1] == e);
            }
        }
    }
}

/// The `(value, competitor)` entries event `e` receives from the rank
/// rows, in row order.
pub open spec fn rank_entries(rows: Seq<Seq<Seq<char>>>, e: Seq<char>) -> Seq<(u32, Seq<char>)>
    decreases rows.len(),
{
    if rows.len() == 0 {
        Seq::empty()
    } else {
        rank_entries(rows.drop_last(), e) + (if rows.last()[1] == e {
            seq![((digits_val(rows.last()[2]) as u32), rows.last()[0])]
        } else {
            Seq::empty()
        })
    }
}

/// The `(value, competitor)` pairs holding value `t`, in order.
pub open spec fn pair_filter(s: Seq<(u32, Seq<char>)>, t: u32) -> Seq<(u32, Seq<char>)> {
    s.filter(|p: (u32, Seq<char>)| p.0 == t)
}

/// Filtering ranking entries by value commutes with taking their views.
pub proof fn lemma_ranking_filter_views(s: Seq<Ranking>, t: u32)
    ensures
        pair_filter(ranking_views(s), t) == ranking_views(time_filter(s, t)),
    decreases s.len(),
{
    reveal(Seq::filter);
    let vp = |p: (u32, Seq<char>)| p.0 == t;
    let xp = |x: Ranking| x.time_key() == t;
    if s.len() == 0 {
        assert(ranking_views(s) =~= Seq::<(u32, Seq<char>)>::empty());
        assert(time_filter(s, t) =~= Seq::<Ranking>::empty());
        assert(ranking_views(time_filter(s, t)) =~= Seq::<(u32, Seq<char>)>::empty());
    } else {
        lemma_ranking_filter_views(s.drop_last(), t);
        let vs = ranking_views(s);
        assert(vs.drop_last() =~= ranking_views(s.drop_last()));
        assert(vs.last() == (s.last().result.time, s.last().competitor_id@));
        if s.last().result.time == t {
            assert(vs.filter(vp) == vs.drop_last().filter(vp).push(vs.last()));
            assert(s.filter(xp) == s.drop_last().filter(xp).push(s.last()));
            assert(ranking_views(s.drop_last().filter(xp).push(s.last())) =~= ranking_views(
                s.drop_last().filter(xp),
            ).push(vs.last()));
        } else {
            assert(vs.filter(vp) == vs.drop_last().filter(vp));
            assert(s.filter(xp) == s.drop_last().filter(xp));
        }
    }
}

/// The record the result store ends up holding for `(id, e)`: the single
/// from the last single-rank row, the average from the last average-rank
/// row, if any.
pub open spec fn final_record_spec(
    srows: Seq<Seq<Seq<char>>>,
    arows: Seq<Seq<Seq<char>>>,
    id: Seq<char>,
    e: Seq<char>,
) -> Option<Record> {
    match find_last_rank(srows, id, e) {
        Some(sf) => Some(
            Record {
                single: CompResult { time: digits_val(sf[2]) as u32 },
                average: match find_last_rank(arows, id, e) {
                    Some(af) => Some(CompResult { time: digits_val(af[2]) as u32 }),
                    None => None,
                },
            },
        ),
        None => None,
    }
}

/// Every average-rank row has a single-rank row for the same pair.
pub open spec fn avg_prereqs_ok(srows: Seq<Seq<Seq<char>>>, arows: Seq<Seq<Seq<char>>>) -> bool {
    forall|i: int|
        0 <= i < arows.len() ==> has_rank_row(srows, (#[trigger] arows[i])[0], arows[i][1])
}

/// Membership in a sequence extended by one element.
proof fn lemma_contains_push<A>(s: Seq<A>, x: A, c: A)
    ensures
        s.push(x).contains(c) == (s.contains(c) || c == x),
{
    if s.contains(c) {
        let i = choose|i: int| 0 <= i < s.len() && s[i] == c;
        assert(s.push(x)[i] == c);
    }
    assert(s.push(x)[s.len() as int] == x);
    if s.push(x).contains(c) {
        let i = choose|i: int| 0 <= i < s.push(x).len() && s.push(x)[i] == c;
        if i < s.len() {
            assert(s[i] == c);
        }
    }
}

/// An event with no rank row has no entries.
proof fn lemma_rank_entries_empty(rows: Seq<Seq<Seq<char>>>, e: Seq<char>)
    requires
        !has_rank_event(rows, e),
    ensures
        rank_entries(rows, e) == Seq::<(u32, Seq<char>)>::empty(),
    decreases rows.len(),
{
    if rows.len() > 0 {
        assert(!has_rank_event(rows.drop_last(), e)) by {
            if has_rank_event(rows.drop_last(), e) {
                let i = choose|i: int|
                    0 <= i < rows.drop_last().len() && #[trigger] rows.drop_last()[i][1] == e;
                assert(rows[i][1] == e);
            }
        }
        lemma_rank_entries_empty(rows.drop_last(), e);
        assert(rows[rows.len() - 1][1] != e);
        assert(rank_entries(rows, e) =~= Seq::<(u32, Seq<char>)>::empty());
    }
}

/// Loads the result store's singles and the single-ranking lists: each row
/// sets the competitor's single for its event (a later row overwrites) and
/// appends a ranking entry; the lists are stably sorted once the file is
/// consumed.
fn load_single_records(w: &mut WCA, content: &str) -> (r: Result<(), IngestionError>)
    requires
        old(w).wf_base(),
        old(w).records_seq().len() == 0,
        old(w).rankings_seq(ResultType::Single).len() == 0,
    ensures
        final(w).wf_base(),
        final(w).persons_seq() == old(w).persons_seq(),
        final(w).comps_seq() == old(w).comps_seq(),
        final(w).rankings_seq(ResultType::Average) == old(w).rankings_seq(ResultType::Average),
        final(w).events_seq() == old(w).events_seq(),
        final(w).duplicate_count() == old(w).duplicate_count(),
        (r is Ok) == ranks_rows_ok(data_rows(content@)),
        match r {
            Ok(_) => {
                &&& forall|id: Seq<char>|
                    #[trigger] final(w).has_records(id) == has_rank_person(data_rows(content@), id)
                &&& forall|id: Seq<char>, e: Seq<char>|
                    #[trigger] final(w).record_of(id, e) == (match find_last_rank(
                        data_rows(content@),
                        id,
                        e,
                    ) {
                        Some(f) => Some(
                            Record {
                                single: CompResult { time: digits_val(f[2]) as u32 },
                                average: None,
                            },
                        ),
                        None => None,
                    })
                &&& forall|e: Seq<char>|
                    #[trigger] final(w).has_rankings(ResultType::Single, e) == has_rank_event(
                        data_rows(content@),
                        e,
                    )
                &&& forall|e: Seq<char>|
                    has_rank_event(data_rows(content@), e) ==> sorted_by_time(
                        #[trigger] final(w).rankings_of(ResultType::Single, e),
                    )
                &&& forall|e: Seq<char>, t: u32|
                    has_rank_event(data_rows(content@), e) ==> #[trigger] pair_filter(
                        ranking_views(final(w).rankings_of(ResultType::Single, e)),
                        t,
                    ) == pair_filter(rank_entries(data_rows(content@), e), t)
            },
            Err(e) => exists|i: int|
                {
                    &&& 0 <= i < data_rows(content@).len()
                    &&& !rank_row_ok(#[trigger] data_rows(content@)[i])
                    &&& (forall|j: int| 0 <= j < i ==> rank_row_ok(#[trigger] data_rows(content@)[j]))
                    &&& e == (IngestionError::MalformedRow {
                        file: SourceFile::SingleRanks,
                        line: (i + 2) as usize,
                    })
                },
        },
{
    let rows = read_rows(content);
    let ghost rs = data_rows(content@);
    let mut k: usize = 0;
    while k < rows.len()
        invariant
            w.wf_base(),
            w.persons_seq() == old(w).persons_seq(),
            w.comps_seq() == old(w).comps_seq(),
            w.rankings_seq(ResultType::Average) == old(w).rankings_seq(ResultType::Average),
            w.events_seq() == old(w).events_seq(),
            w.duplicate_count() == old(w).duplicate_count(),
            k <= rows@.len(),
            rows@.len() < usize::MAX,
            rs == data_rows(content@),
            rows@.len() == rs.len(),
            forall|i: int| 0 <= i < rows@.len() ==> #[trigger] string_views(rows@[i]@) == rs[i],
            forall|j: int| 0 <= j < k ==> rank_row_ok(#[trigger] rs[j]),
            forall|id: Seq<char>|
                #[trigger] w.has_records(id) == has_rank_person(rs.take(k as int), id),
            forall|id: Seq<char>, e: Seq<char>|
                #[trigger] w.record_of(id, e) == (match find_last_rank(rs.take(k as int), id, e) {
                    Some(f) => Some(
                        Record {
                            single: CompResult { time: digits_val(f[2]) as u32 },
                            average: None,
                        },
                    ),
                    None => None,
                }),
            forall|e: Seq<char>|
                #[trigger] w.has_rankings(ResultType::Single, e) == has_rank_event(
                    rs.take(k as int),
                    e,
                ),
            forall|e: Seq<char>|
                has_rank_event(rs.take(k as int), e) ==> #[trigger] ranking_views(
                    w.rankings_of(ResultType::Single, e),
                ) == rank_entries(rs.take(k as int), e),
        decreases rows@.len() - k,
    {
        let row = &rows[k];
        let parsed: Option<u32> = if row.len() != 6 {
            None
        } else {
            match (
                parse_u32(row[2].as_str()),
                parse_u32(row[3].as_str()),
                parse_u32(row[4].as_str()),
                parse_u32(row[5].as_str()),
            ) {
                (Some(b), Some(_), Some(_), Some(_)) => Some(b),
                _ => None,
            }
        };
        let best = match parsed {
            Some(b) => b,
            None => {
                proof {
                    assert(string_views(rows@[k as int]@).len() == rs[k as int].len());
                    if rows@[k as int]@.len() == 6 {
                        assert(string_views(rows@[k as int]@)[2] == rows@[k as int]@[2]@);
                        assert(string_views(rows@[k as int]@)[3] == rows@[k as int]@[3]@);
                        assert(string_views(rows@[k as int]@)[4] == rows@[k as int]@[4]@);
                        assert(string_views(rows@[k as int]@)[5] == rows@[k as int]@[5]@);
                    }
                    assert(data_rows(content@)[k as int] == rs[k as int]);
                    assert(!rank_row_ok(data_rows(content@)[k as int]));
                    assert forall|j: int| 0 <= j < k implies rank_row_ok(
                        #[trigger] data_rows(content@)[j],
                    ) by {
                        assert(rank_row_ok(rs[j]));
                    }
                }
                return Err(
                    IngestionError::MalformedRow { file: SourceFile::SingleRanks, line: k + 2 },
                );
            },
        };
        let ghost w0 = *w;
        proof {
            assert(string_views(rows@[k as int]@)[0] == rows@[k as int]@[0]@);
            assert(string_views(rows@[k as int]@)[1] == rows@[k as int]@[1]@);
            assert(string_views(rows@[k as int]@)[2] == rows@[k as int]@[2]@);
        }
        w.add_single_record(row[0].clone(), row[1].clone(), best);
        let ghost w1 = *w;
        w.add_single_ranking(row[1].clone(), best, row[0].clone());
        proof {
            let t1 = rs.take(k as int);
            let t2 = rs.take(k + 1 as int);
            let rid = rs[k as int][0];
            let re = rs[k as int][1];
            assert(t2.drop_last() =~= t1);
            assert(t2.last() == rs[k as int]);
            assert(w.records_seq() == w1.records_seq());
            assert(w1.rankings_seq(ResultType::Single) == w0.rankings_seq(ResultType::Single));
            assert forall|id: Seq<char>| #[trigger]
                w.has_records(id) == has_rank_person(t2, id) by {
                assert(w.has_records(id) == w1.has_records(id));
                if id == rid {
                    assert(w1.has_records(rid));
                    assert(t2[k as int][0] == rid);
                } else {
                    assert(w1.has_records(id) == w0.has_records(id));
                    assert(w0.has_records(id) == has_rank_person(t1, id));
                    if has_rank_person(t2, id) {
                        let i = choose|i: int| 0 <= i < t2.len() && #[trigger] t2[i][0] == id;
                        assert(i < k);
                        assert(t1[i][0] == id);
                    }
                    if has_rank_person(t1, id) {
                        let i = choose|i: int| 0 <= i < t1.len() && #[trigger] t1[i][0] == id;
                        assert(t2[i][0] == id);
                    }
                }
            }
            assert forall|id: Seq<char>, e: Seq<char>| #[trigger]
                w.record_of(id, e) == (match find_last_rank(t2, id, e) {
                    Some(f) => Some(
                        Record {
                            single: CompResult { time: digits_val(f[2]) as u32 },
                            average: None,
                        },
                    ),
                    None => None,
                }) by {
                assert(find_last_rank(t2.drop_last(), id, e) == find_last_rank(t1, id, e));
                assert(w.record_of(id, e) == w1.record_of(id, e));
                if id == rid && e == re {
                    assert(w1.record_of(rid, re) == Some(
                        Record { single: CompResult { time: best }, average: None },
                    ));
                } else {
                    assert(w0.record_of(id, e) == (match find_last_rank(t1, id, e) {
                        Some(f) => Some(
                            Record {
                                single: CompResult { time: digits_val(f[2]) as u32 },
                                average: None,
                            },
                        ),
                        None => None,
                    }));
                    if id != rid {
                        assert(w1.has_records(id) == w0.has_records(id));
                        if w0.has_records(id) {
                            assert(w1.records_of(id) == w0.records_of(id));
                        }
                        assert(w1.record_of(id, e) == w0.record_of(id, e));
                    } else {
                        assert(w1.record_of(rid, e) == w0.record_of(rid, e));
                    }
                }
            }
            assert forall|e: Seq<char>| #[trigger]
                w.has_rankings(ResultType::Single, e) == has_rank_event(t2, e) by {
                if e == re {
                    assert(w.has_rankings(ResultType::Single, re));
                    assert(t2[k as int][1] == re);
                } else {
                    assert(w.has_rankings(ResultType::Single, e) == w1.has_rankings(
                        ResultType::Single,
                        e,
                    ));
                    assert(w1.has_rankings(ResultType::Single, e) == w0.has_rankings(
                        ResultType::Single,
                        e,
                    ));
                    assert(w0.has_rankings(ResultType::Single, e) == has_rank_event(t1, e));
                    if has_rank_event(t2, e) {
                        let i = choose|i: int| 0 <= i < t2.len() && #[trigger] t2[i][1] == e;
                        assert(i < k);
                        assert(t1[i][1] == e);
                    }
                    if has_rank_event(t1, e) {
                        let i = choose|i: int| 0 <= i < t1.len() && #[trigger] t1[i][1] == e;
                        assert(t2[i][1] == e);
                    }
                }
            }
            assert forall|e: Seq<char>| has_rank_event(t2, e) implies #[trigger] ranking_views(
                w.rankings_of(ResultType::Single, e),
            ) == rank_entries(t2, e) by {
                if e == re {
                    assert(w1.has_rankings(ResultType::Single, re) == w0.has_rankings(
                        ResultType::Single,
                        re,
                    ));
                    if w1.has_rankings(ResultType::Single, re) {
                        assert(w1.rankings_of(ResultType::Single, re) == w0.rankings_of(
                            ResultType::Single,
                            re,
                        ));
                        assert(w0.has_rankings(ResultType::Single, re));
                        assert(ranking_views(w0.rankings_of(ResultType::Single, re))
                            == rank_entries(t1, re));
                        assert(rank_entries(t2, re) =~= rank_entries(t1, re).push(
                            ((digits_val(rs[k as int][2]) as u32), rid),
                        ));
                    } else {
                        lemma_rank_entries_empty(t1, re);
                        assert(rank_entries(t2, re) =~= Seq::<(u32, Seq<char>)>::empty().push(
                            ((digits_val(rs[k as int][2]) as u32), rid),
                        ));
                    }
                } else {
                    assert(w.has_rankings(ResultType::Single, e) == w1.has_rankings(
                        ResultType::Single,
                        e,
                    ));
                    assert(w.rankings_of(ResultType::Single, e) == w1.rankings_of(
                        ResultType::Single,
                        e,
                    ));
                    assert(w1.rankings_of(ResultType::Single, e) == w0.rankings_of(
                        ResultType::Single,
                        e,
                    ));
                    assert(rank_entries(t2, e) =~= rank_entries(t1, e));
                    assert(has_rank_event(t1, e)) by {
                        let i = choose|i: int| 0 <= i < t2.len() && #[trigger] t2[i][1] == e;
                        assert(t1[i][1] == e);
                    }
                    assert(w0.has_rankings(ResultType::Single, e) == has_rank_event(t1, e));
                    assert(ranking_views(w0.rankings_of(ResultType::Single, e)) == rank_entries(
                        t1,
                        e,
                    ));
                }
            }
        }
        k = k + 1;
    }
    proof {
        assert(rs.take(rs.len() as int) =~= rs);
    }
    let ghost wmid = *w;
    w.sort_rankings(ResultType::Single);
    proof {
        assert(w.records_seq() == wmid.records_seq());
        assert forall|id: Seq<char>| #[trigger]
            w.has_records(id) == has_rank_person(rs, id) by {
            assert(w.has_records(id) == wmid.has_records(id));
            assert(wmid.has_records(id) == has_rank_person(rs.take(rs.len() as int), id));
        }
        assert forall|id: Seq<char>, e: Seq<char>| #[trigger]
            w.record_of(id, e) == (match find_last_rank(rs, id, e) {
                Some(f) => Some(
                    Record { single: CompResult { time: digits_val(f[2]) as u32 }, average: None },
                ),
                None => None,
            }) by {
            assert(w.record_of(id, e) == wmid.record_of(id, e));
            assert(wmid.record_of(id, e) == (match find_last_rank(rs.take(rs.len() as int), id, e) {
                Some(f) => Some(
                    Record { single: CompResult { time: digits_val(f[2]) as u32 }, average: None },
                ),
                None => None,
            }));
        }
        assert forall|e: Seq<char>| #[trigger]
            w.has_rankings(ResultType::Single, e) == has_rank_event(rs, e) by {
            assert(wmid.has_rankings(ResultType::Single, e) == has_rank_event(
                rs.take(rs.len() as int),
                e,
            ));
        }
        assert forall|e: Seq<char>| has_rank_event(rs, e) implies sorted_by_time(
            #[trigger] w.rankings_of(ResultType::Single, e),
        ) by {
            assert(wmid.has_rankings(ResultType::Single, e) == has_rank_event(
                rs.take(rs.len() as int),
                e,
            ));
        }
        assert forall|e: Seq<char>, t: u32| has_rank_event(rs, e) implies #[trigger] pair_filter(
            ranking_views(w.rankings_of(ResultType::Single, e)),
            t,
        ) == pair_filter(rank_entries(rs, e), t) by {
            assert(wmid.has_rankings(ResultType::Single, e) == has_rank_event(
                rs.take(rs.len() as int),
                e,
            ));
            assert(ranking_views(wmid.rankings_of(ResultType::Single, e)) == rank_entries(
                rs.take(rs.len() as int),
                e,
            ));
            lemma_ranking_filter_views(w.rankings_of(ResultType::Single, e), t);
            lemma_ranking_filter_views(wmid.rankings_of(ResultType::Single, e), t);
            assert(time_filter(w.rankings_of(ResultType::Single, e), t) == time_filter(
                wmid.rankings_of(ResultType::Single, e),
                t,
            ));
        }
    }
    Ok(())
}

/// Loads the result store's averages and the average-ranking lists. Every
/// row requires a prior single for its competitor/event pair; one without
/// it aborts the stage with `MissingPrerequisite`. The lists get the same
/// explicit stable sort as the single lists — a deliberate policy, so the
/// ordering never depends on the source file being pre-sorted.
fn load_average_records(w: &mut WCA, content: &str) -> (r: Result<(), IngestionError>)
    requires
        old(w).wf_base(),
        old(w).rankings_seq(ResultType::Average).len() == 0,
    ensures
        final(w).wf_base(),
        final(w).persons_seq() == old(w).persons_seq(),
        final(w).comps_seq() == old(w).comps_seq(),
        final(w).rankings_seq(ResultType::Single) == old(w).rankings_seq(ResultType::Single),
        final(w).events_seq() == old(w).events_seq(),
        final(w).duplicate_count() == old(w).duplicate_count(),
        forall|o: Seq<char>| #[trigger] final(w).has_records(o) == old(w).has_records(o),
        (r is Ok) == (ranks_rows_ok(data_rows(content@)) && (forall|i: int|
            0 <= i < data_rows(content@).len() ==> old(w).record_of(
                (#[trigger] data_rows(content@)[i])[0],
                data_rows(content@)[i][1],
            ) is Some)),
        match r {
            Ok(_) => {
                &&& forall|id: Seq<char>, e: Seq<char>|
                    #[trigger] final(w).record_of(id, e) == (match find_last_rank(
                        data_rows(content@),
                        id,
                        e,
                    ) {
                        Some(f) => (match old(w).record_of(id, e) {
                            Some(r0) => Some(
                                Record {
                                    single: r0.single,
                                    average: Some(CompResult { time: digits_val(f[2]) as u32 }),
                                },
                            ),
                            None => None,
                        }),
                        None => old(w).record_of(id, e),
                    })
                &&& forall|e: Seq<char>|
                    #[trigger] final(w).has_rankings(ResultType::Average, e) == has_rank_event(
                        data_rows(content@),
                        e,
                    )
                &&& forall|e: Seq<char>|
                    has_rank_event(data_rows(content@), e) ==> sorted_by_time(
                        #[trigger] final(w).rankings_of(ResultType::Average, e),
                    )
                &&& forall|e: Seq<char>, t: u32|
                    has_rank_event(data_rows(content@), e) ==> #[trigger] pair_filter(
                        ranking_views(final(w).rankings_of(ResultType::Average, e)),
                        t,
                    ) == pair_filter(rank_entries(data_rows(content@), e), t)
            },
            Err(e) => match e {
                IngestionError::MalformedRow { file, line } => file == SourceFile::AverageRanks
                    && exists|i: int|
                    {
                        &&& 0 <= i < data_rows(content@).len()
                        &&& !rank_row_ok(#[trigger] data_rows(content@)[i])
                        &&& (forall|j: int|
                            0 <= j < i ==> rank_row_ok(#[trigger] data_rows(content@)[j]))
                        &&& line == (i + 2) as usize
                    },
                IngestionError::MissingPrerequisite { file, line } => file
                    == SourceFile::AverageRanks && exists|i: int|
                    {
                        &&& 0 <= i < data_rows(content@).len()
                        &&& rank_row_ok(#[trigger] data_rows(content@)[i])
                        &&& old(w).record_of(
                            data_rows(content@)[i][0],
                            data_rows(content@)[i][1],
                        ) is None
                        &&& (forall|j: int|
                            0 <= j < i ==> rank_row_ok(#[trigger] data_rows(content@)[j]))
                        &&& (forall|j: int|
                            0 <= j < i ==> old(w).record_of(
                                (#[trigger] data_rows(content@)[j])[0],
                                data_rows(content@)[j][1],
                            ) is Some)
                        &&& line == (i + 2) as usize
                    },
            },
        },
{
    let rows = read_rows(content);
    let ghost rs = data_rows(content@);
    let mut k: usize = 0;
    while k < rows.len()
        invariant
            w.wf_base(),
            w.persons_seq() == old(w).persons_seq(),
            w.comps_seq() == old(w).comps_seq(),
            w.rankings_seq(ResultType::Single) == old(w).rankings_seq(ResultType::Single),
            w.events_seq() == old(w).events_seq(),
            w.duplicate_count() == old(w).duplicate_count(),
            forall|o: Seq<char>| #[trigger] w.has_records(o) == old(w).has_records(o),
            k <= rows@.len(),
            rows@.len() < usize::MAX,
            rs == data_rows(content@),
            rows@.len() == rs.len(),
            forall|i: int| 0 <= i < rows@.len() ==> #[trigger] string_views(rows@[i]@) == rs[i],
            forall|j: int| 0 <= j < k ==> rank_row_ok(#[trigger] rs[j]),
            forall|j: int|
                0 <= j < k ==> old(w).record_of((#[trigger] rs[j])[0], rs[j][1]) is Some,
            forall|id: Seq<char>, e: Seq<char>|
                #[trigger] w.record_of(id, e) == (match find_last_rank(rs.take(k as int), id, e) {
                    Some(f) => (match old(w).record_of(id, e) {
                        Some(r0) => Some(
                            Record {
                                single: r0.single,
                                average: Some(CompResult { time: digits_val(f[2]) as u32 }),
                            },
                        ),
                        None => None,
                    }),
                    None => old(w).record_of(id, e),
                }),
            forall|e: Seq<char>|
                #[trigger] w.has_rankings(ResultType::Average, e) == has_rank_event(
                    rs.take(k as int),
                    e,
                ),
            forall|e: Seq<char>|
                has_rank_event(rs.take(k as int), e) ==> #[trigger] ranking_views(
                    w.rankings_of(ResultType::Average, e),
                ) == rank_entries(rs.take(k as int), e),
        decreases rows@.len() - k,
    {
        let row = &rows[k];
        let parsed: Option<u32> = if row.len() != 6 {
            None
        } else {
            match (
                parse_u32(row[2].as_str()),
                parse_u32(row[3].as_str()),
                parse_u32(row[4].as_str()),
                parse_u32(row[5].as_str()),
            ) {
                (Some(b), Some(_), Some(_), Some(_)) => Some(b),
                _ => None,
            }
        };
        let best = match parsed {
            Some(b) => b,
            None => {
                proof {
                    assert(string_views(rows@[k as int]@).len() == rs[k as int].len());
                    if rows@[k as int]@.len() == 6 {
                        assert(string_views(rows@[k as int]@)[2] == rows@[k as int]@[2]@);
                        assert(string_views(rows@[k as int]@)[3] == rows@[k as int]@[3]@);
                        assert(string_views(rows@[k as int]@)[4] == rows@[k as int]@[4]@);
                        assert(string_views(rows@[k as int]@)[5] == rows@[k as int]@[5]@);
                    }
                    assert(data_rows(content@)[k as int] == rs[k as int]);
                    assert(!rank_row_ok(data_rows(content@)[k as int]));
                    assert forall|j: int| 0 <= j < k implies rank_row_ok(
                        #[trigger] data_rows(content@)[j],
                    ) by {
                        assert(rank_row_ok(rs[j]));
                    }
                }
                return Err(
                    IngestionError::MalformedRow { file: SourceFile::AverageRanks, line: k + 2 },
                );
            },
        };
        let ghost w0 = *w;
        proof {
            assert(string_views(rows@[k as int]@)[0] == rows@[k as int]@[0]@);
            assert(string_views(rows@[k as int]@)[1] == rows@[k as int]@[1]@);
            assert(string_views(rows@[k as int]@)[2] == rows@[k as int]@[2]@);
        }
        let id = row[0].clone();
        let puzzle = row[1].clone();
        let ok = w.add_average_record(&id, &puzzle, best);
        if !ok {
            proof {
                let t1 = rs.take(k as int);
                let rid = rs[k as int][0];
                let re = rs[k as int][1];
                assert(id@ == rid && puzzle@ == re);
                assert(w0.record_of(rid, re) is None);
                assert(old(w).record_of(rid, re) is None) by {
                    assert(w0.record_of(rid, re) == (match find_last_rank(t1, rid, re) {
                        Some(f) => (match old(w).record_of(rid, re) {
                            Some(r0) => Some(
                                Record {
                                    single: r0.single,
                                    average: Some(CompResult { time: digits_val(f[2]) as u32 }),
                                },
                            ),
                            None => None,
                        }),
                        None => old(w).record_of(rid, re),
                    }));
                }
                assert(data_rows(content@)[k as int] == rs[k as int]);
                assert(old(w).record_of(
                    data_rows(content@)[k as int][0],
                    data_rows(content@)[k as int][1],
                ) is None);
                assert(rank_row_ok(data_rows(content@)[k as int]));
                assert forall|j: int| 0 <= j < k implies rank_row_ok(
                    #[trigger] data_rows(content@)[j],
                ) by {
                    assert(rank_row_ok(rs[j]));
                }
                assert forall|j: int| 0 <= j < k implies old(w).record_of(
                    (#[trigger] data_rows(content@)[j])[0],
                    data_rows(content@)[j][1],
                ) is Some by {
                    assert(old(w).record_of(rs[j][0], rs[j][1]) is Some);
                }
            }
            return Err(
                IngestionError::MissingPrerequisite {
                    file: SourceFile::AverageRanks,
                    line: k + 2,
                },
            );
        }
        let ghost w1 = *w;
        w.add_average_ranking(puzzle, best, id);
        proof {
            let t1 = rs.take(k as int);
            let t2 = rs.take(k + 1 as int);
            let rid = rs[k as int][0];
            let re = rs[k as int][1];
            assert(t2.drop_last() =~= t1);
            assert(t2.last() == rs[k as int]);
            assert(w.records_seq() == w1.records_seq());
            assert(w1.rankings_seq(ResultType::Average) == w0.rankings_seq(ResultType::Average));
            assert(id@ == rid && puzzle@ == re);
            assert forall|o: Seq<char>| #[trigger]
                w.has_records(o) == old(w).has_records(o) by {
                assert(w.has_records(o) == w1.has_records(o));
                assert(w1.has_records(o) == w0.has_records(o));
                assert(w0.has_records(o) == old(w).has_records(o));
            }
            assert(w0.record_of(rid, re) is Some);
            assert(w0.record_of(rid, re) == (match find_last_rank(t1, rid, re) {
                Some(f) => (match old(w).record_of(rid, re) {
                    Some(r0) => Some(
                        Record {
                            single: r0.single,
                            average: Some(CompResult { time: digits_val(f[2]) as u32 }),
                        },
                    ),
                    None => None,
                }),
                None => old(w).record_of(rid, re),
            }));
            assert(old(w).record_of(rid, re) is Some) by {
                if find_last_rank(t1, rid, re) is None {
                    assert(w0.record_of(rid, re) == old(w).record_of(rid, re));
                }
            }
            assert forall|id2: Seq<char>, e: Seq<char>| #[trigger]
                w.record_of(id2, e) == (match find_last_rank(t2, id2, e) {
                    Some(f) => (match old(w).record_of(id2, e) {
                        Some(r0) => Some(
                            Record {
                                single: r0.single,
                                average: Some(CompResult { time: digits_val(f[2]) as u32 }),
                            },
                        ),
                        None => None,
                    }),
                    None => old(w).record_of(id2, e),
                }) by {
                assert(find_last_rank(t2.drop_last(), id2, e) == find_last_rank(t1, id2, e));
                assert(w.record_of(id2, e) == w1.record_of(id2, e));
                if id2 == rid && e == re {
                    assert(w0.record_of(rid, re) matches Some(r0) ==> w1.record_of(rid, re)
                        == Some(
                        Record { single: r0.single, average: Some(CompResult { time: best }) },
                    ));
                } else {
                    assert(w0.record_of(id2, e) == (match find_last_rank(t1, id2, e) {
                        Some(f) => (match old(w).record_of(id2, e) {
                            Some(r0) => Some(
                                Record {
                                    single: r0.single,
                                    average: Some(CompResult { time: digits_val(f[2]) as u32 }),
                                },
                            ),
                            None => None,
                        }),
                        None => old(w).record_of(id2, e),
                    }));
                    if id2 != rid {
                        assert(w1.has_records(id2) == w0.has_records(id2));
                        if w0.has_records(id2) {
                            assert(w1.records_of(id2) == w0.records_of(id2));
                        }
                        assert(w1.record_of(id2, e) == w0.record_of(id2, e));
                    } else {
                        assert(w1.record_of(rid, e) == w0.record_of(rid, e));
                    }
                }
            }
            assert forall|e: Seq<char>| #[trigger]
                w.has_rankings(ResultType::Average, e) == has_rank_event(t2, e) by {
                if e == re {
                    assert(w.has_rankings(ResultType::Average, re));
                    assert(t2[k as int][1] == re);
                } else {
                    assert(w.has_rankings(ResultType::Average, e) == w1.has_rankings(
                        ResultType::Average,
                        e,
                    ));
                    assert(w1.has_rankings(ResultType::Average, e) == w0.has_rankings(
                        ResultType::Average,
                        e,
                    ));
                    assert(w0.has_rankings(ResultType::Average, e) == has_rank_event(t1, e));
                    if has_rank_event(t2, e) {
                        let i = choose|i: int| 0 <= i < t2.len() && #[trigger] t2[i][1] == e;
                        assert(i < k);
                        assert(t1[i][1] == e);
                    }
                    if has_rank_event(t1, e) {
                        let i = choose|i: int| 0 <= i < t1.len() && #[trigger] t1[i][1] == e;
                        assert(t2[i][1] == e);
                    }
                }
            }
            assert forall|e: Seq<char>| has_rank_event(t2, e) implies #[trigger] ranking_views(
                w.rankings_of(ResultType::Average, e),
            ) == rank_entries(t2, e) by {
                if e == re {
                    assert(w1.has_rankings(ResultType::Average, re) == w0.has_rankings(
                        ResultType::Average,
                        re,
                    ));
                    if w1.has_rankings(ResultType::Average, re) {
                        assert(w1.rankings_of(ResultType::Average, re) == w0.rankings_of(
                            ResultType::Average,
                            re,
                        ));
                        assert(w0.has_rankings(ResultType::Average, re));
                        assert(ranking_views(w0.rankings_of(ResultType::Average, re))
                            == rank_entries(t1, re));
                        assert(rank_entries(t2, re) =~= rank_entries(t1, re).push(
                            ((digits_val(rs[k as int][2]) as u32), rid),
                        ));
                    } else {
                        lemma_rank_entries_empty(t1, re);
                        assert(rank_entries(t2, re) =~= Seq::<(u32, Seq<char>)>::empty().push(
                            ((digits_val(rs[k as int][2]) as u32), rid),
                        ));
                    }
                } else {
                    assert(w.has_rankings(ResultType::Average, e) == w1.has_rankings(
                        ResultType::Average,
                        e,
                    ));
                    assert(w.rankings_of(ResultType::Average, e) == w1.rankings_of(
                        ResultType::Average,
                        e,
                    ));
                    assert(w1.rankings_of(ResultType::Average, e) == w0.rankings_of(
                        ResultType::Average,
                        e,
                    ));
                    assert(rank_entries(t2, e) =~= rank_entries(t1, e));
                    assert(has_rank_event(t1, e)) by {
                        let i = choose|i: int| 0 <= i < t2.len() && #[trigger] t2[i][1] == e;
                        assert(t1[i][1] == e);
                    }
                    assert(w0.has_rankings(ResultType::Average, e) == has_rank_event(t1, e));
                    assert(ranking_views(w0.rankings_of(ResultType::Average, e)) == rank_entries(
                        t1,
                        e,
                    ));
                }
            }
        }
        k = k + 1;
    }
    proof {
        assert(rs.take(rs.len() as int) =~= rs);
    }
    let ghost wmid = *w;
    w.sort_rankings(ResultType::Average);
    proof {
        assert(w.records_seq() == wmid.records_seq());
        assert forall|o: Seq<char>| #[trigger]
            w.has_records(o) == old(w).has_records(o) by {
            assert(w.has_records(o) == wmid.has_records(o));
        }
        assert forall|id: Seq<char>, e: Seq<char>| #[trigger]
            w.record_of(id, e) == (match find_last_rank(rs, id, e) {
                Some(f) => (match old(w).record_of(id, e) {
                    Some(r0) => Some(
                        Record {
                            single: r0.single,
                            average: Some(CompResult { time: digits_val(f[2]) as u32 }),
                        },
                    ),
                    None => None,
                }),
                None => old(w).record_of(id, e),
            }) by {
            assert(w.record_of(id, e) == wmid.record_of(id, e));
            assert(wmid.record_of(id, e) == (match find_last_rank(rs.take(rs.len() as int), id, e) {
                Some(f) => (match old(w).record_of(id, e) {
                    Some(r0) => Some(
                        Record {
                            single: r0.single,
                            average: Some(CompResult { time: digits_val(f[2]) as u32 }),
                        },
                    ),
                    None => None,
                }),
                None => old(w).record_of(id, e),
            }));
        }
        assert forall|e: Seq<char>| #[trigger]
            w.has_rankings(ResultType::Average, e) == has_rank_event(rs, e) by {
            assert(wmid.has_rankings(ResultType::Average, e) == has_rank_event(
                rs.take(rs.len() as int),
                e,
            ));
        }
        assert forall|e: Seq<char>| has_rank_event(rs, e) implies sorted_by_time(
            #[trigger] w.rankings_of(ResultType::Average, e),
        ) by {
            assert(wmid.has_rankings(ResultType::Average, e) == has_rank_event(
                rs.take(rs.len() as int),
                e,
            ));
        }
        assert forall|e: Seq<char>, t: u32| has_rank_event(rs, e) implies #[trigger] pair_filter(
            ranking_views(w.rankings_of(ResultType::Average, e)),
            t,
        ) == pair_filter(rank_entries(rs, e), t) by {
            assert(wmid.has_rankings(ResultType::Average, e) == has_rank_event(
                rs.take(rs.len() as int),
                e,
            ));
            assert(ranking_views(wmid.rankings_of(ResultType::Average, e)) == rank_entries(
                rs.take(rs.len() as int),
                e,
            ));
            lemma_ranking_filter_views(w.rankings_of(ResultType::Average, e), t);
            lemma_ranking_filter_views(wmid.rankings_of(ResultType::Average, e), t);
            assert(time_filter(w.rankings_of(ResultType::Average, e), t) == time_filter(
                wmid.rankings_of(ResultType::Average, e),
                t,
            ));
        }
    }
    Ok(())
}

/// All five inputs are well-formed and every average row has its single:
/// exactly the condition under which building succeeds.
pub open spec fn build_ok(
    pc: Seq<char>,
    rc: Seq<char>,
    sc: Seq<char>,
    ac: Seq<char>,
    ec: Seq<char>,
) -> bool {
    &&& persons_rows_ok(data_rows(pc))
    &&& results_rows_ok(data_rows(rc))
    &&& ranks_rows_ok(data_rows(sc))
    &&& ranks_rows_ok(data_rows(ac))
    &&& avg_prereqs_ok(data_rows(sc), data_rows(ac))
    &&& events_rows_ok(data_rows(ec))
}

/// What a successfully built dataset holds, as a function of the five
/// inputs' rows: the identity store keeps the last row per identifier and
/// the backfilled count; the participation index keeps exactly the
/// distinct competitions seen; the result store keeps the last single and
/// last average per pair; each ranking list is the stable ascending sort
/// of its event's entries in file order; the catalog keeps the event rows
/// in order.
pub open spec fn dataset_matches(
    w: WCA,
    pc: Seq<char>,
    rc: Seq<char>,
    sc: Seq<char>,
    ac: Seq<char>,
    ec: Seq<char>,
) -> bool {
    &&& w.wf()
    &&& forall|id: Seq<char>| #[trigger] w.has_person(id) == has_person_row(data_rows(pc), id)
    &&& forall|id: Seq<char>|
        has_person_row(data_rows(pc), id) ==> (#[trigger] w.person_of(id)).id@ == id
    &&& forall|id: Seq<char>|
        has_person_row(data_rows(pc), id) ==> (#[trigger] w.person_of(id)).name@
            == last_person_field(data_rows(pc), id, 2)
    &&& forall|id: Seq<char>|
        has_person_row(data_rows(pc), id) ==> (#[trigger] w.person_of(id)).country@
            == last_person_field(data_rows(pc), id, 3)
    &&& forall|id: Seq<char>|
        has_person_row(data_rows(pc), id) ==> (#[trigger] w.person_of(id)).gender
            == Gender::spec_from_token(last_person_field(data_rows(pc), id, 4))
    &&& forall|id: Seq<char>|
        has_person_row(data_rows(pc), id) ==> (#[trigger] w.person_of(id)).competition_count
            == w.backfilled_count(id)
    &&& forall|id: Seq<char>|
        #[trigger] w.has_participation(id) == has_result_person(data_rows(rc), id)
    &&& forall|id: Seq<char>, c: Seq<char>|
        w.has_participation(id) ==> #[trigger] w.comps_of(id).contains(c) == result_comp_seen(
            data_rows(rc),
            id,
            c,
        )
    &&& forall|id: Seq<char>| #[trigger] w.has_records(id) == has_rank_person(data_rows(sc), id)
    &&& forall|id: Seq<char>, e: Seq<char>|
        #[trigger] w.record_of(id, e) == final_record_spec(data_rows(sc), data_rows(ac), id, e)
    &&& forall|e: Seq<char>|
        #[trigger] w.has_rankings(ResultType::Single, e) == has_rank_event(data_rows(sc), e)
    &&& forall|e: Seq<char>, t: u32|
        has_rank_event(data_rows(sc), e) ==> #[trigger] pair_filter(
            ranking_views(w.rankings_of(ResultType::Single, e)),
            t,
        ) == pair_filter(rank_entries(data_rows(sc), e), t)
    &&& forall|e: Seq<char>|
        #[trigger] w.has_rankings(ResultType::Average, e) == has_rank_event(data_rows(ac), e)
    &&& forall|e: Seq<char>, t: u32|
        has_rank_event(data_rows(ac), e) ==> #[trigger] pair_filter(
            ranking_views(w.rankings_of(ResultType::Average, e)),
            t,
        ) == pair_filter(rank_entries(data_rows(ac), e), t)
    &&& w.events_seq().len() == data_rows(ec).len()
    &&& forall|i: int|
        0 <= i < data_rows(ec).len() ==> (#[trigger] w.events_seq()[i]).id@ == data_rows(ec)[i][0]
            && w.events_seq()[i].name@ == data_rows(ec)[i][1]
}

/// Which failure aborts a build: a malformed row names its file, with the
/// stages before it whole; a missing prerequisite can only come from the
/// average ranks.
pub open spec fn error_matches(
    e: IngestionError,
    pc: Seq<char>,
    rc: Seq<char>,
    sc: Seq<char>,
    ac: Seq<char>,
    ec: Seq<char>,
) -> bool {
    match e {
        IngestionError::MalformedRow { file, line } => {
            &&& (file == SourceFile::Persons ==> first_malformed_person(data_rows(pc), line))
            &&& (file == SourceFile::Results ==> persons_rows_ok(data_rows(pc))
                && first_malformed_result(data_rows(rc), line))
            &&& (file == SourceFile::SingleRanks ==> persons_rows_ok(data_rows(pc))
                && results_rows_ok(data_rows(rc)) && first_malformed_rank(data_rows(sc), line))
            &&& (file == SourceFile::AverageRanks ==> persons_rows_ok(data_rows(pc))
                && results_rows_ok(data_rows(rc)) && ranks_rows_ok(data_rows(sc))
                && first_malformed_rank(data_rows(ac), line))
            &&& (file == SourceFile::Events ==> persons_rows_ok(data_rows(pc)) && results_rows_ok(
                data_rows(rc),
            ) && ranks_rows_ok(data_rows(sc)) && ranks_rows_ok(data_rows(ac)) && avg_prereqs_ok(
                data_rows(sc),
                data_rows(ac),
            ) && first_malformed_event(data_rows(ec), line))
        },
        IngestionError::MissingPrerequisite { file, line } => {
            &&& file == SourceFile::AverageRanks
            &&& persons_rows_ok(data_rows(pc))
            &&& results_rows_ok(data_rows(rc))
            &&& ranks_rows_ok(data_rows(sc))
            &&& first_missing_single(data_rows(sc), data_rows(ac), line)
        },
    }
}

/// `line` points at the first malformed competitor row.
pub open spec fn first_malformed_person(rows: Seq<Seq<Seq<char>>>, line: usize) -> bool {
    exists|i: int|
        {
            &&& 0 <= i < rows.len()
            &&& !person_row_ok(#[trigger] rows[i])
            &&& (forall|j: int| 0 <= j < i ==> person_row_ok(#[trigger] rows[j]))
            &&& line == (i + 2) as usize
        }
}

/// `line` points at the first malformed result row.
pub open spec fn first_malformed_result(rows: Seq<Seq<Seq<char>>>, line: usize) -> bool {
    exists|i: int|
        {
            &&& 0 <= i < rows.len()
            &&& !result_row_ok(#[trigger] rows[i])
            &&& (forall|j: int| 0 <= j < i ==> result_row_ok(#[trigger] rows[j]))
            &&& line == (i + 2) as usize
        }
}

/// `line` points at the first malformed rank row.
pub open spec fn first_malformed_rank(rows: Seq<Seq<Seq<char>>>, line: usize) -> bool {
    exists|i: int|
        {
            &&& 0 <= i < rows.len()
            &&& !rank_row_ok(#[trigger] rows[i])
            &&& (forall|j: int| 0 <= j < i ==> rank_row_ok(#[trigger] rows[j]))
            &&& line == (i + 2) as usize
        }
}

/// `line` points at the first malformed event row.
pub open spec fn first_malformed_event(rows: Seq<Seq<Seq<char>>>, line: usize) -> bool {
    exists|i: int|
        {
            &&& 0 <= i < rows.len()
            &&& !event_row_ok(#[trigger] rows[i])
            &&& (forall|j: int| 0 <= j < i ==> event_row_ok(#[trigger] rows[j]))
            &&& line == (i + 2) as usize
        }
}

/// `line` points at the first average row whose competitor/event pair has
/// no single-rank row, among well-formed rows.
pub open spec fn first_missing_single(
    srows: Seq<Seq<Seq<char>>>,
    arows: Seq<Seq<Seq<char>>>,
    line: usize,
) -> bool {
    exists|i: int|
        {
            &&& 0 <= i < arows.len()
            &&& rank_row_ok(#[trigger] arows[i])
            &&& !has_rank_row(srows, arows[i][0], arows[i][1])
            &&& (forall|j: int|
                0 <= j < i ==> rank_row_ok(#[trigger] arows[j]) && has_rank_row(
                    srows,
                    arows[j][0],
                    arows[j][1],
                ))
            &&& line == (i + 2) as usize
        }
}

impl WCA {
    /// Builds the dataset from the contents of the five input files, in
    /// dependency order, ending with the competition-count backfill. On
    /// any failure there is no dataset.
    pub fn new(
        persons: &str,
        results: &str,
        records_single: &str,
        records_average: &str,
        events: &str,
    ) -> (r: Result<WCA, IngestionError>)
        ensures
            (r is Ok) == build_ok(persons@, results@, records_single@, records_average@, events@),
            match r {
                Ok(w) => dataset_matches(
                    w,
                    persons@,
                    results@,
                    records_single@,
                    records_average@,
                    events@,
                ),
                Err(e) => error_matches(
                    e,
                    persons@,
                    results@,
                    records_single@,
                    records_average@,
                    events@,
                ),
            },
    {
        let ghost pc = persons@;
        let ghost rc = results@;
        let ghost sc = records_single@;
        let ghost ac = records_average@;
        let ghost ec = events@;
        let mut w = WCA::empty();
        match load_persons(&mut w, persons) {
            Err(e) => {
                return Err(e);
            },
            Ok(_) => {},
        }
        let ghost wa = w;
        match load_competitions(&mut w, results) {
            Err(e) => {
                return Err(e);
            },
            Ok(_) => {},
        }
        let ghost wb = w;
        match load_single_records(&mut w, records_single) {
            Err(e) => {
                return Err(e);
            },
            Ok(_) => {},
        }
        let ghost wc = w;
        match load_average_records(&mut w, records_average) {
            Err(e) => {
                proof {
                    match e {
                        IngestionError::MalformedRow { file, line } => {
                            let i = choose|i: int|
                                0 <= i < data_rows(ac).len() && !rank_row_ok(
                                    #[trigger] data_rows(ac)[i],
                                ) && (forall|j: int|
                                    0 <= j < i ==> rank_row_ok(#[trigger] data_rows(ac)[j]))
                                    && line == (i + 2) as usize;
                            assert(!ranks_rows_ok(data_rows(ac)));
                            assert(first_malformed_rank(data_rows(ac), line));
                        },
                        IngestionError::MissingPrerequisite { file, line } => {
                            let i = choose|i: int|
                                0 <= i < data_rows(ac).len() && rank_row_ok(
                                    #[trigger] data_rows(ac)[i],
                                ) && wc.record_of(data_rows(ac)[i][0], data_rows(ac)[i][1]) is None
                                    && (forall|j: int|
                                    0 <= j < i ==> rank_row_ok(#[trigger] data_rows(ac)[j])) && (
                                forall|j: int|
                                    0 <= j < i ==> wc.record_of(
                                        (#[trigger] data_rows(ac)[j])[0],
                                        data_rows(ac)[j][1],
                                    ) is Some) && line == (i + 2) as usize;
                            lemma_find_last_rank_some(
                                data_rows(sc),
                                data_rows(ac)[i][0],
                                data_rows(ac)[i][1],
                            );
                            assert(!has_rank_row(
                                data_rows(sc),
                                data_rows(ac)[i][0],
                                data_rows(ac)[i][1],
                            ));
                            assert(!avg_prereqs_ok(data_rows(sc), data_rows(ac)));
                            assert forall|j: int| 0 <= j < i implies rank_row_ok(
                                #[trigger] data_rows(ac)[j],
                            ) && has_rank_row(
                                data_rows(sc),
                                data_rows(ac)[j][0],
                                data_rows(ac)[j][1],
                            ) by {
                                assert(wc.record_of(
                                    data_rows(ac)[j][0],
                                    data_rows(ac)[j][1],
                                ) is Some);
                                lemma_find_last_rank_some(
                                    data_rows(sc),
                                    data_rows(ac)[j][0],
                                    data_rows(ac)[j][1],
                                );
                            }
                            assert(first_missing_single(data_rows(sc), data_rows(ac), line));
                        },
                    }
                }
                return Err(e);
            },
            Ok(_) => {},
        }
        let ghost wd = w;
        proof {
            assert(avg_prereqs_ok(data_rows(sc), data_rows(ac))) by {
                assert forall|i: int| 0 <= i < data_rows(ac).len() implies has_rank_row(
                    data_rows(sc),
                    (#[trigger] data_rows(ac)[i])[0],
                    data_rows(ac)[i][1],
                ) by {
                    assert(wc.record_of(data_rows(ac)[i][0], data_rows(ac)[i][1]) is Some);
                    lemma_find_last_rank_some(
                        data_rows(sc),
                        data_rows(ac)[i][0],
                        data_rows(ac)[i][1],
                    );
                }
            }
        }
        match load_events(&mut w, events) {
            Err(e) => {
                return Err(e);
            },
            Ok(_) => {},
        }
        let ghost we = w;
        w.update_competition_count_cache();
        proof {
            lemma_dataset_assembled(wa, wb, wc, wd, we, w, pc, rc, sc, ac, ec);
        }
        Ok(w)
    }
}

/// Builds the dataset from the contents of the five input files; the
/// external entry point of the ingestion engine.
pub fn build_from_files(
    persons_data: &str,
    results_data: &str,
    records_single_data: &str,
    records_average_data: &str,
    events_data: &str,
) -> (r: Result<WCA, IngestionError>)
    ensures
        (r is Ok) == build_ok(
            persons_data@,
            results_data@,
            records_single_data@,
            records_average_data@,
            events_data@,
        ),
        match r {
            Ok(w) => dataset_matches(
                w,
                persons_data@,
                results_data@,
                records_single_data@,
                records_average_data@,
                events_data@,
            ),
            Err(e) => error_matches(
                e,
                persons_data@,
                results_data@,
                records_single_data@,
                records_average_data@,
                events_data@,
            ),
        },
{
    WCA::new(persons_data, results_data, records_single_data, records_average_data, events_data)
}

/// Assembles the top-level description of the built dataset from the
/// stage contracts: `wa` is the state after the identity store loaded,
/// `wb` after participation, `wc` after singles, `wd` after averages,
/// `we` after events, and `wf_` the published dataset after the backfill.
#[verifier::rlimit(100)]
#[verifier::spinoff_prover]
proof fn lemma_dataset_assembled(
    wa: WCA,
    wb: WCA,
    wc: WCA,
    wd: WCA,
    we: WCA,
    wf_: WCA,
    pc: Seq<char>,
    rc: Seq<char>,
    sc: Seq<char>,
    ac: Seq<char>,
    ec: Seq<char>,
)
    requires
        wf_.wf_base(),
// persons: loaded in wa, values kept to we, counts rewritten in wf_
        forall|id: Seq<char>| #[trigger] wa.has_person(id) == has_person_row(data_rows(pc), id),
        forall|id: Seq<char>|
            has_person_row(data_rows(pc), id) ==> (#[trigger] wa.person_of(id)).id@ == id,
        forall|id: Seq<char>|
            has_person_row(data_rows(pc), id) ==> (#[trigger] wa.person_of(id)).name@
                == last_person_field(data_rows(pc), id, 2),
        forall|id: Seq<char>|
            has_person_row(data_rows(pc), id) ==> (#[trigger] wa.person_of(id)).country@
                == last_person_field(data_rows(pc), id, 3),
        forall|id: Seq<char>|
            has_person_row(data_rows(pc), id) ==> (#[trigger] wa.person_of(id)).gender
                == Gender::spec_from_token(last_person_field(data_rows(pc), id, 4)),
        wb.persons_seq() == wa.persons_seq(),
        wc.persons_seq() == wb.persons_seq(),
        wd.persons_seq() == wc.persons_seq(),
        we.persons_seq() == wd.persons_seq(),
        forall|o: Seq<char>| #[trigger] wf_.has_person(o) == we.has_person(o),
        forall|o: Seq<char>|
            we.has_person(o) ==> #[trigger] wf_.person_of(o).id == we.person_of(o).id,
        forall|o: Seq<char>|
            we.has_person(o) ==> #[trigger] wf_.person_of(o).name == we.person_of(o).name,
        forall|o: Seq<char>|
            we.has_person(o) ==> #[trigger] wf_.person_of(o).country == we.person_of(o).country,
        forall|o: Seq<char>|
            we.has_person(o) ==> #[trigger] wf_.person_of(o).gender == we.person_of(o).gender,
        forall|o: Seq<char>|
            we.has_person(o) ==> #[trigger] wf_.person_of(o).competition_count
                == we.backfilled_count(o),
// participation: loaded in wb, untouched afterwards
        forall|id: Seq<char>|
            #[trigger] wb.has_participation(id) == has_result_person(data_rows(rc), id),
        forall|id: Seq<char>, c: Seq<char>|
            wb.has_participation(id) ==> #[trigger] wb.comps_of(id).contains(c)
                == result_comp_seen(data_rows(rc), id, c),
        wc.comps_seq() == wb.comps_seq(),
        wd.comps_seq() == wc.comps_seq(),
        we.comps_seq() == wd.comps_seq(),
        wf_.comps_seq() == we.comps_seq(),
// records: singles in wc, averages in wd, untouched afterwards
        forall|id: Seq<char>| #[trigger] wc.has_records(id) == has_rank_person(data_rows(sc), id),
        forall|id: Seq<char>, e: Seq<char>|
            #[trigger] wc.record_of(id, e) == (match find_last_rank(data_rows(sc), id, e) {
                Some(f) => Some(
                    Record { single: CompResult { time: digits_val(f[2]) as u32 }, average: None },
                ),
                None => None,
            }),
        forall|o: Seq<char>| #[trigger] wd.has_records(o) == wc.has_records(o),
        forall|id: Seq<char>, e: Seq<char>|
            #[trigger] wd.record_of(id, e) == (match find_last_rank(data_rows(ac), id, e) {
                Some(f) => (match wc.record_of(id, e) {
                    Some(r0) => Some(
                        Record {
                            single: r0.single,
                            average: Some(CompResult { time: digits_val(f[2]) as u32 }),
                        },
                    ),
                    None => None,
                }),
                None => wc.record_of(id, e),
            }),
        we.records_seq() == wd.records_seq(),
        wf_.records_seq() == we.records_seq(),
// single rankings: final in wc, untouched afterwards
        forall|e: Seq<char>|
            #[trigger] wc.has_rankings(ResultType::Single, e) == has_rank_event(data_rows(sc), e),
        forall|e: Seq<char>|
            has_rank_event(data_rows(sc), e) ==> sorted_by_time(
                #[trigger] wc.rankings_of(ResultType::Single, e),
            ),
        forall|e: Seq<char>, t: u32|
            has_rank_event(data_rows(sc), e) ==> #[trigger] pair_filter(
                ranking_views(wc.rankings_of(ResultType::Single, e)),
                t,
            ) == pair_filter(rank_entries(data_rows(sc), e), t),
        wd.rankings_seq(ResultType::Single) == wc.rankings_seq(ResultType::Single),
        we.rankings_seq(ResultType::Single) == wd.rankings_seq(ResultType::Single),
        wf_.rankings_seq(ResultType::Single) == we.rankings_seq(ResultType::Single),
// average rankings: final in wd, untouched afterwards
        forall|e: Seq<char>|
            #[trigger] wd.has_rankings(ResultType::Average, e) == has_rank_event(data_rows(ac), e),
        forall|e: Seq<char>|
            has_rank_event(data_rows(ac), e) ==> sorted_by_time(
                #[trigger] wd.rankings_of(ResultType::Average, e),
            ),
        forall|e: Seq<char>, t: u32|
            has_rank_event(data_rows(ac), e) ==> #[trigger] pair_filter(
                ranking_views(wd.rankings_of(ResultType::Average, e)),
                t,
            ) == pair_filter(rank_entries(data_rows(ac), e), t),
        we.rankings_seq(ResultType::Average) == wd.rankings_seq(ResultType::Average),
        wf_.rankings_seq(ResultType::Average) == we.rankings_seq(ResultType::Average),
// events: loaded in we, untouched afterwards
        we.events_seq().len() == data_rows(ec).len(),
        forall|i: int|
            0 <= i < data_rows(ec).len() ==> (#[trigger] we.events_seq()[i]).id@ == data_rows(
                ec,
            )[i][0] && we.events_seq()[i].name@ == data_rows(ec)[i][1],
        wf_.events_seq() == we.events_seq(),
    ensures
        dataset_matches(wf_, pc, rc, sc, ac, ec),
{
    // persons
    assert forall|id: Seq<char>| #[trigger]
        wf_.has_person(id) == has_person_row(data_rows(pc), id) by {
        assert(we.has_person(id) == wa.has_person(id));
    }
    assert forall|id: Seq<char>| has_person_row(data_rows(pc), id) implies (
    #[trigger] wf_.person_of(id)).id@ == id && wf_.person_of(id).name@ == last_person_field(
        data_rows(pc),
        id,
        2,
    ) && wf_.person_of(id).country@ == last_person_field(data_rows(pc), id, 3) && wf_.person_of(
        id,
    ).gender == Gender::spec_from_token(last_person_field(data_rows(pc), id, 4)) && wf_.person_of(
        id,
    ).competition_count == wf_.backfilled_count(id) by {
        assert(wa.has_person(id));
        assert(we.has_person(id) == wa.has_person(id));
        assert(we.person_of(id) == wa.person_of(id));
        assert(wf_.person_of(id).id == we.person_of(id).id);
        assert(wf_.person_of(id).name == we.person_of(id).name);
        assert(wf_.person_of(id).country == we.person_of(id).country);
        assert(wf_.person_of(id).gender == we.person_of(id).gender);
        assert(wf_.person_of(id).competition_count == we.backfilled_count(id));
        assert(we.backfilled_count(id) == wf_.backfilled_count(id)) by {
            assert(we.has_participation(id) == wf_.has_participation(id));
            if wf_.has_participation(id) {
                assert(we.comps_of(id) == wf_.comps_of(id));
            }
        }
    }
    // participation
    assert forall|id: Seq<char>| #[trigger]
        wf_.has_participation(id) == has_result_person(data_rows(rc), id) by {
        assert(wf_.has_participation(id) == wb.has_participation(id));
    }
    assert forall|id: Seq<char>, c: Seq<char>| wf_.has_participation(id) implies #[trigger] wf_.comps_of(
        id,
    ).contains(c) == result_comp_seen(data_rows(rc), id, c) by {
        assert(wf_.has_participation(id) == wb.has_participation(id));
        assert(wf_.comps_of(id) == wb.comps_of(id));
        assert(wb.comps_of(id).contains(c) == result_comp_seen(data_rows(rc), id, c));
    }
    // records
    assert forall|id: Seq<char>| #[trigger]
        wf_.has_records(id) == has_rank_person(data_rows(sc), id) by {
        assert(wf_.has_records(id) == wd.has_records(id));
        assert(wd.has_records(id) == wc.has_records(id));
    }
    assert forall|id: Seq<char>, e: Seq<char>| #[trigger]
        wf_.record_of(id, e) == final_record_spec(data_rows(sc), data_rows(ac), id, e) by {
        assert(wf_.record_of(id, e) == wd.record_of(id, e));
    }
    // single rankings
    assert forall|e: Seq<char>| #[trigger]
        wf_.has_rankings(ResultType::Single, e) == has_rank_event(data_rows(sc), e) by {
        assert(wf_.has_rankings(ResultType::Single, e) == wc.has_rankings(ResultType::Single, e));
    }
    assert forall|e: Seq<char>, t: u32| has_rank_event(data_rows(sc), e) implies #[trigger] pair_filter(
        ranking_views(wf_.rankings_of(ResultType::Single, e)),
        t,
    ) == pair_filter(rank_entries(data_rows(sc), e), t) by {
        assert(wf_.rankings_of(ResultType::Single, e) == wc.rankings_of(ResultType::Single, e));
    }
    // average rankings
    assert forall|e: Seq<char>| #[trigger]
        wf_.has_rankings(ResultType::Average, e) == has_rank_event(data_rows(ac), e) by {
        assert(wf_.has_rankings(ResultType::Average, e) == wd.has_rankings(
            ResultType::Average,
            e,
        ));
    }
    assert forall|e: Seq<char>, t: u32| has_rank_event(data_rows(ac), e) implies #[trigger] pair_filter(
        ranking_views(wf_.rankings_of(ResultType::Average, e)),
        t,
    ) == pair_filter(rank_entries(data_rows(ac), e), t) by {
        assert(wf_.rankings_of(ResultType::Average, e) == wd.rankings_of(ResultType::Average, e));
    }
    // the published invariant: every ranking list is sorted
    assert(wf_.wf()) by {
        assert forall|i: int|
            0 <= i < wf_.rankings_seq(ResultType::Single).len() implies sorted_by_time(
            (#[trigger] wf_.rankings_seq(ResultType::Single)[i]).entries@,
        ) by {
            let entry = wf_.rankings_seq(ResultType::Single)[i];
            let e = entry.key();
            lemma_assoc_idx_unique(wf_.rankings_seq(ResultType::Single), e, i);
            assert(wf_.has_rankings(ResultType::Single, e));
            assert(wc.has_rankings(ResultType::Single, e) == wf_.has_rankings(
                ResultType::Single,
                e,
            ));
            assert(sorted_by_time(wc.rankings_of(ResultType::Single, e)));
            assert(wf_.rankings_of(ResultType::Single, e) == wc.rankings_of(
                ResultType::Single,
                e,
            ));
            assert(wf_.rankings_of(ResultType::Single, e) == entry.entries@);
        }
        assert forall|i: int|
            0 <= i < wf_.rankings_seq(ResultType::Average).len() implies sorted_by_time(
            (#[trigger] wf_.rankings_seq(ResultType::Average)[i]).entries@,
        ) by {
            let entry = wf_.rankings_seq(ResultType::Average)[i];
            let e = entry.key();
            lemma_assoc_idx_unique(wf_.rankings_seq(ResultType::Average), e, i);
            assert(wf_.has_rankings(ResultType::Average, e));
            assert(wd.has_rankings(ResultType::Average, e) == wf_.has_rankings(
                ResultType::Average,
                e,
            ));
            assert(sorted_by_time(wd.rankings_of(ResultType::Average, e)));
            assert(wf_.rankings_of(ResultType::Average, e) == wd.rankings_of(
                ResultType::Average,
                e,
            ));
            assert(wf_.rankings_of(ResultType::Average, e) == entry.entries@);
        }
    }
}

/// Loads the event catalog: every data row appended in file order,
/// duplicates kept.
fn load_events(w: &mut WCA, content: &str) -> (r: Result<(), IngestionError>)
    requires
        old(w).wf_base(),
        old(w).events_seq().len() == 0,
    ensures
        final(w).wf_base(),
        final(w).persons_seq() == old(w).persons_seq(),
        final(w).comps_seq() == old(w).comps_seq(),
        final(w).records_seq() == old(w).records_seq(),
        final(w).rankings_seq(ResultType::Single) == old(w).rankings_seq(ResultType::Single),
        final(w).rankings_seq(ResultType::Average) == old(w).rankings_seq(ResultType::Average),
        final(w).duplicate_count() == old(w).duplicate_count(),
        (r is Ok) == events_rows_ok(data_rows(content@)),
        match r {
            Ok(_) => {
                &&& final(w).events_seq().len() == data_rows(content@).len()
                &&& forall|i: int|
                    0 <= i < data_rows(content@).len() ==> (#[trigger] final(w).events_seq()[i]).id@
                        == data_rows(content@)[i][0] && final(w).events_seq()[i].name@ == data_rows(
                        content@,
                    )[i][1]
            },
            Err(e) => exists|i: int|
                {
                    &&& 0 <= i < data_rows(content@).len()
                    &&& !event_row_ok(#[trigger] data_rows(content@)[i])
                    &&& (forall|j: int| 0 <= j < i ==> event_row_ok(#[trigger] data_rows(content@)[j]))
                    &&& e == (IngestionError::MalformedRow {
                        file: SourceFile::Events,
                        line: (i + 2) as usize,
                    })
                },
        },
{
    let rows = read_rows(content);
    let ghost rs = data_rows(content@);
    let mut k: usize = 0;
    while k < rows.len()
        invariant
            w.wf_base(),
            w.persons_seq() == old(w).persons_seq(),
            w.comps_seq() == old(w).comps_seq(),
            w.records_seq() == old(w).records_seq(),
            w.rankings_seq(ResultType::Single) == old(w).rankings_seq(ResultType::Single),
            w.rankings_seq(ResultType::Average) == old(w).rankings_seq(ResultType::Average),
            w.duplicate_count() == old(w).duplicate_count(),
            k <= rows@.len(),
            rows@.len() < usize::MAX,
            rs == data_rows(content@),
            rows@.len() == rs.len(),
            forall|i: int| 0 <= i < rows@.len() ==> #[trigger] string_views(rows@[i]@) == rs[i],
            forall|j: int| 0 <= j < k ==> event_row_ok(#[trigger] rs[j]),
            w.events_seq().len() == k,
            forall|j: int|
                0 <= j < k ==> (#[trigger] w.events_seq()[j]).id@ == rs[j][0]
                    && w.events_seq()[j].name@ == rs[j][1],
        decreases rows@.len() - k,
    {
        let row = &rows[k];
        if row.len() != 2 {
            proof {
                assert(string_views(rows@[k as int]@).len() == rs[k as int].len());
                assert(data_rows(content@)[k as int] == rs[k as int]);
                assert(!event_row_ok(data_rows(content@)[k as int]));
                assert forall|j: int| 0 <= j < k implies event_row_ok(
                    #[trigger] data_rows(content@)[j],
                ) by {
                    assert(event_row_ok(rs[j]));
                }
            }
            return Err(IngestionError::MalformedRow { file: SourceFile::Events, line: k + 2 });
        }
        let e = Event { id: row[0].clone(), name: row[1].clone() };
        proof {
            assert(string_views(rows@[k as int]@)[0] == rows@[k as int]@[0]@);
            assert(string_views(rows@[k as int]@)[1] == rows@[k as int]@[1]@);
        }
        w.push_event(e);
        k = k + 1;
    }
    Ok(())
}

/// Loads the identity store: one competitor per row, a duplicated
/// identifier overwritten by its last row and surfaced in the duplicate
/// counter.
fn load_persons(w: &mut WCA, content: &str) -> (r: Result<(), IngestionError>)
    requires
        old(w).wf_base(),
        old(w).persons_seq().len() == 0,
        old(w).duplicate_count() == 0,
    ensures
        final(w).wf_base(),
        final(w).comps_seq() == old(w).comps_seq(),
        final(w).records_seq() == old(w).records_seq(),
        final(w).rankings_seq(ResultType::Single) == old(w).rankings_seq(ResultType::Single),
        final(w).rankings_seq(ResultType::Average) == old(w).rankings_seq(ResultType::Average),
        final(w).events_seq() == old(w).events_seq(),
        (r is Ok) == persons_rows_ok(data_rows(content@)),
        match r {
            Ok(_) => {
                &&& forall|id: Seq<char>|
                    #[trigger] final(w).has_person(id) == has_person_row(data_rows(content@), id)
                &&& forall|id: Seq<char>|
                    has_person_row(data_rows(content@), id) ==> (#[trigger] final(w).person_of(
                        id,
                    )).id@ == id
                &&& forall|id: Seq<char>|
                    has_person_row(data_rows(content@), id) ==> (#[trigger] final(w).person_of(
                        id,
                    )).name@ == last_person_field(data_rows(content@), id, 2)
                &&& forall|id: Seq<char>|
                    has_person_row(data_rows(content@), id) ==> (#[trigger] final(w).person_of(
                        id,
                    )).country@ == last_person_field(data_rows(content@), id, 3)
                &&& forall|id: Seq<char>|
                    has_person_row(data_rows(content@), id) ==> (#[trigger] final(w).person_of(
                        id,
                    )).gender == Gender::spec_from_token(
                        last_person_field(data_rows(content@), id, 4),
                    )
                &&& forall|id: Seq<char>|
                    has_person_row(data_rows(content@), id) ==> (#[trigger] final(w).person_of(
                        id,
                    )).competition_count == 0
            },
            Err(e) => exists|i: int|
                {
                    &&& 0 <= i < data_rows(content@).len()
                    &&& !person_row_ok(#[trigger] data_rows(content@)[i])
                    &&& (forall|j: int|
                        0 <= j < i ==> person_row_ok(#[trigger] data_rows(content@)[j]))
                    &&& e == (IngestionError::MalformedRow {
                        file: SourceFile::Persons,
                        line: (i + 2) as usize,
                    })
                },
        },
{
    let rows = read_rows(content);
    let ghost rs = data_rows(content@);
    let mut k: usize = 0;
    while k < rows.len()
        invariant
            w.wf_base(),
            w.comps_seq() == old(w).comps_seq(),
            w.records_seq() == old(w).records_seq(),
            w.rankings_seq(ResultType::Single) == old(w).rankings_seq(ResultType::Single),
            w.rankings_seq(ResultType::Average) == old(w).rankings_seq(ResultType::Average),
            w.events_seq() == old(w).events_seq(),
            w.duplicate_count() <= k,
            k <= rows@.len(),
            rows@.len() < usize::MAX,
            rs == data_rows(content@),
            rows@.len() == rs.len(),
            forall|i: int| 0 <= i < rows@.len() ==> #[trigger] string_views(rows@[i]@) == rs[i],
            forall|j: int| 0 <= j < k ==> person_row_ok(#[trigger] rs[j]),
            forall|id: Seq<char>|
                #[trigger] w.has_person(id) == has_person_row(rs.take(k as int), id),
            forall|id: Seq<char>|
                has_person_row(rs.take(k as int), id) ==> (#[trigger] w.person_of(id)).id@ == id,
            forall|id: Seq<char>|
                has_person_row(rs.take(k as int), id) ==> (#[trigger] w.person_of(id)).name@
                    == last_person_field(rs.take(k as int), id, 2),
            forall|id: Seq<char>|
                has_person_row(rs.take(k as int), id) ==> (#[trigger] w.person_of(id)).country@
                    == last_person_field(rs.take(k as int), id, 3),
            forall|id: Seq<char>|
                has_person_row(rs.take(k as int), id) ==> (#[trigger] w.person_of(id)).gender
                    == Gender::spec_from_token(last_person_field(rs.take(k as int), id, 4)),
            forall|id: Seq<char>|
                has_person_row(rs.take(k as int), id) ==> (#[trigger] w.person_of(
                    id,
                )).competition_count == 0,
        decreases rows@.len() - k,
    {
        let row = &rows[k];
        if row.len() != 5 || !is_i32_token(row[1].as_str()) {
            proof {
                assert(string_views(rows@[k as int]@).len() == rs[k as int].len());
                if rows@[k as int]@.len() == 5 {
                    assert(string_views(rows@[k as int]@)[1] == rows@[k as int]@[1]@);
                }
                assert(data_rows(content@)[k as int] == rs[k as int]);
                assert(!person_row_ok(data_rows(content@)[k as int]));
                assert forall|j: int| 0 <= j < k implies person_row_ok(
                    #[trigger] data_rows(content@)[j],
                ) by {
                    assert(person_row_ok(rs[j]));
                }
            }
            return Err(IngestionError::MalformedRow { file: SourceFile::Persons, line: k + 2 });
        }
        let ghost w0 = *w;
        let c = Competitor {
            id: row[0].clone(),
            name: row[2].clone(),
            country: row[3].clone(),
            gender: Gender::from_token(row[4].as_str()),
            competition_count: 0,
        };
        proof {
            assert(string_views(rows@[k as int]@)[0] == rows@[k as int]@[0]@);
            assert(string_views(rows@[k as int]@)[1] == rows@[k as int]@[1]@);
            assert(string_views(rows@[k as int]@)[2] == rows@[k as int]@[2]@);
            assert(string_views(rows@[k as int]@)[3] == rows@[k as int]@[3]@);
            assert(string_views(rows@[k as int]@)[4] == rows@[k as int]@[4]@);
        }
        w.insert_person(c);
        proof {
            let t1 = rs.take(k as int);
            let t2 = rs.take(k + 1 as int);
            let rid = rs[k as int][0];
            assert(t2.drop_last() =~= t1);
            assert(t2.last() == rs[k as int]);
            assert(c.id@ == rid);
            assert(has_person_row(t2, rid)) by {
                assert(t2[k as int][0] == rid);
            }
            assert forall|id: Seq<char>|
                id != rid implies #[trigger] has_person_row(t2, id) == has_person_row(t1, id) by {
                if has_person_row(t2, id) {
                    let i = choose|i: int| 0 <= i < t2.len() && #[trigger] t2[i][0] == id;
                    assert(i < k);
                    assert(t1[i][0] == id);
                }
                if has_person_row(t1, id) {
                    let i = choose|i: int| 0 <= i < t1.len() && #[trigger] t1[i][0] == id;
                    assert(t2[i][0] == id);
                }
            }
            assert forall|id: Seq<char>| #[trigger]
                find_last_person(t2, id) == (if rs[k as int][0] == id {
                    Some(rs[k as int])
                } else {
                    find_last_person(t1, id)
                }) by {
                assert(find_last_person(t2.drop_last(), id) == find_last_person(t1, id));
            }
            assert forall|id: Seq<char>| #[trigger]
                w.has_person(id) == has_person_row(t2, id) by {
                if id != rid {
                    assert(w.has_person(id) == w0.has_person(id));
                }
            }
            assert forall|id: Seq<char>| has_person_row(t2, id) implies (
            #[trigger] w.person_of(id)).id@ == id && w.person_of(id).name@ == last_person_field(
                t2,
                id,
                2,
            ) && w.person_of(id).country@ == last_person_field(t2, id, 3) && w.person_of(id).gender
                == Gender::spec_from_token(last_person_field(t2, id, 4)) && w.person_of(
                id,
            ).competition_count == 0 by {
                if id == rid {
                    assert(w.person_of(id) == c);
                    assert(last_person_field(t2, id, 2) == rs[k as int][2]);
                } else {
                    assert(w.person_of(id) == w0.person_of(id));
                    assert(last_person_field(t2, id, 2) == last_person_field(t1, id, 2));
                    assert(last_person_field(t2, id, 3) == last_person_field(t1, id, 3));
                    assert(last_person_field(t2, id, 4) == last_person_field(t1, id, 4));
                }
            }
        }
        k = k + 1;
    }
    proof {
        assert(rs.take(rs.len() as int) =~= rs);
    }
    Ok(())
}

/// Loads the participation index from the results file: field 7 names the
/// competitor, field 0 the competition.
fn load_competitions(w: &mut WCA, content: &str) -> (r: Result<(), IngestionError>)
    requires
        old(w).wf_base(),
        old(w).comps_seq().len() == 0,
    ensures
        final(w).wf_base(),
        final(w).persons_seq() == old(w).persons_seq(),
        final(w).records_seq() == old(w).records_seq(),
        final(w).rankings_seq(ResultType::Single) == old(w).rankings_seq(ResultType::Single),
        final(w).rankings_seq(ResultType::Average) == old(w).rankings_seq(ResultType::Average),
        final(w).events_seq() == old(w).events_seq(),
        final(w).duplicate_count() == old(w).duplicate_count(),
        (r is Ok) == results_rows_ok(data_rows(content@)),
        match r {
            Ok(_) => {
                &&& forall|id: Seq<char>|
                    #[trigger] final(w).has_participation(id) == has_result_person(
                        data_rows(content@),
                        id,
                    )
                &&& forall|id: Seq<char>, c: Seq<char>|
                    final(w).has_participation(id) ==> #[trigger] final(w).comps_of(id).contains(c)
                        == result_comp_seen(data_rows(content@), id, c)
            },
            Err(e) => exists|i: int|
                {
                    &&& 0 <= i < data_rows(content@).len()
                    &&& !result_row_ok(#[trigger] data_rows(content@)[i])
                    &&& (forall|j: int|
                        0 <= j < i ==> result_row_ok(#[trigger] data_rows(content@)[j]))
                    &&& e == (IngestionError::MalformedRow {
                        file: SourceFile::Results,
                        line: (i + 2) as usize,
                    })
                },
        },
{
    let rows = read_rows(content);
    let ghost rs = data_rows(content@);
    let mut k: usize = 0;
    while k < rows.len()
        invariant
            w.wf_base(),
            w.persons_seq() == old(w).persons_seq(),
            w.records_seq() == old(w).records_seq(),
            w.rankings_seq(ResultType::Single) == old(w).rankings_seq(ResultType::Single),
            w.rankings_seq(ResultType::Average) == old(w).rankings_seq(ResultType::Average),
            w.events_seq() == old(w).events_seq(),
            w.duplicate_count() == old(w).duplicate_count(),
            k <= rows@.len(),
            rows@.len() < usize::MAX,
            rs == data_rows(content@),
            rows@.len() == rs.len(),
            forall|i: int| 0 <= i < rows@.len() ==> #[trigger] string_views(rows@[i]@) == rs[i],
            forall|j: int| 0 <= j < k ==> result_row_ok(#[trigger] rs[j]),
            forall|id: Seq<char>|
                #[trigger] w.has_participation(id) == has_result_person(rs.take(k as int), id),
            forall|id: Seq<char>, c: Seq<char>|
                w.has_participation(id) ==> #[trigger] w.comps_of(id).contains(c)
                    == result_comp_seen(rs.take(k as int), id, c),
        decreases rows@.len() - k,
    {
        let row = &rows[k];
        if row.len() < 8 {
            proof {
                assert(string_views(rows@[k as int]@).len() == rs[k as int].len());
                assert(data_rows(content@)[k as int] == rs[k as int]);
                assert(!result_row_ok(data_rows(content@)[k as int]));
                assert forall|j: int| 0 <= j < k implies result_row_ok(
                    #[trigger] data_rows(content@)[j],
                ) by {
                    assert(result_row_ok(rs[j]));
                }
            }
            return Err(IngestionError::MalformedRow { file: SourceFile::Results, line: k + 2 });
        }
        let ghost w0 = *w;
        let id = row[7].clone();
        let comp = row[0].clone();
        proof {
            assert(string_views(rows@[k as int]@)[7] == rows@[k as int]@[7]@);
            assert(string_views(rows@[k as int]@)[0] == rows@[k as int]@[0]@);
        }
        w.visited_comp(id, comp);
        proof {
            let t1 = rs.take(k as int);
            let t2 = rs.take(k + 1 as int);
            let rid = rs[k as int][7];
            let rc = rs[k as int][0];
            assert forall|id2: Seq<char>| #[trigger]
                w.has_participation(id2) == has_result_person(t2, id2) by {
                if id2 == rid {
                    assert(t2[k as int][7] == rid);
                } else {
                    assert(has_result_person(t2, id2) == has_result_person(t1, id2)) by {
                        if has_result_person(t2, id2) {
                            let i = choose|i: int| 0 <= i < t2.len() && #[trigger] t2[i][7] == id2;
                            assert(i < k);
                            assert(t1[i][7] == id2);
                        }
                        if has_result_person(t1, id2) {
                            let i = choose|i: int| 0 <= i < t1.len() && #[trigger] t1[i][7] == id2;
                            assert(t2[i][7] == id2);
                        }
                    }
                }
            }
            assert forall|id2: Seq<char>, c: Seq<char>| w.has_participation(id2) implies #[trigger] w.comps_of(
                id2,
            ).contains(c) == result_comp_seen(t2, id2, c) by {
                if id2 == rid {
                    let cs0 = if w0.has_participation(rid) {
                        w0.comps_of(rid)
                    } else {
                        Seq::<Seq<char>>::empty()
                    };
                    assert(w.comps_of(rid).contains(c) == (cs0.contains(c) || c == rc)) by {
                        if !w0.has_participation(rid) {
                            assert(w.comps_of(rid) =~= Seq::<Seq<char>>::empty().push(rc));
                            lemma_contains_push(Seq::<Seq<char>>::empty(), rc, c);
                        } else if w0.comps_of(rid).contains(rc) {
                            assert(w.comps_of(rid) == w0.comps_of(rid));
                        } else {
                            assert(w.comps_of(rid) == w0.comps_of(rid).push(rc));
                            lemma_contains_push(w0.comps_of(rid), rc, c);
                        }
                    }
                    assert(result_comp_seen(t2, rid, c) == (result_comp_seen(t1, rid, c) || c
                        == rc)) by {
                        if result_comp_seen(t2, rid, c) {
                            let i = choose|i: int|
                                0 <= i < t2.len() && #[trigger] t2[i][7] == rid && t2[i][0] == c;
                            if i < k {
                                assert(t1[i][7] == rid && t1[i][0] == c);
                            }
                        }
                        if result_comp_seen(t1, rid, c) {
                            let i = choose|i: int|
                                0 <= i < t1.len() && #[trigger] t1[i][7] == rid && t1[i][0] == c;
                            assert(t2[i][7] == rid && t2[i][0] == c);
                        }
                        if c == rc {
                            assert(t2[k as int][7] == rid && t2[k as int][0] == rc);
                        }
                    }
                    if w0.has_participation(rid) {
                        assert(result_comp_seen(t1, rid, c) == w0.comps_of(rid).contains(c));
                    } else {
                        assert(!result_comp_seen(t1, rid, c)) by {
                            if result_comp_seen(t1, rid, c) {
                                let i = choose|i: int|
                                    0 <= i < t1.len() && #[trigger] t1[i][7] == rid && t1[i][0]
                                        == c;
                                assert(has_result_person(t1, rid));
                            }
                        }
                    }
                } else {
                    assert(w.comps_of(id2) == w0.comps_of(id2) && w.has_participation(id2)
                        == w0.has_participation(id2));
                    assert(result_comp_seen(t2, id2, c) == result_comp_seen(t1, id2, c)) by {
                        if result_comp_seen(t2, id2, c) {
                            let i = choose|i: int|
                                0 <= i < t2.len() && #[trigger] t2[i][7] == id2 && t2[i][0] == c;
                            assert(i < k);
                            assert(t1[i][7] == id2 && t1[i][0] == c);
                        }
                        if result_comp_seen(t1, id2, c) {
                            let i = choose|i: int|
                                0 <= i < t1.len() && #[trigger] t1[i][7] == id2 && t1[i][0] == c;
                            assert(t2[i][7] == id2 && t2[i][0] == c);
                        }
                    }
                }
            }
        }
        k = k + 1;
    }
    proof {
        assert(rs.take(rs.len() as int) =~= rs);
    }
    Ok(())
}

} // verus!
