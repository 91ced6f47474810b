use vstd::prelude::*;

use crate::codec::lemma_line_of_shape;
use crate::codec::lemma_line_round_trip;
use crate::codec::line_of;
use crate::codec::prompt_fits;
use crate::codec::sp_parse_line;
use crate::prompt::PromptModel;
use crate::stats::aggregate;
use crate::stats::freq_count;
use crate::stats::freq_total;
use crate::stats::init_stats;
use crate::stats::lemma_freq_step_count;
use crate::stats::lemma_freq_step_total;
use crate::stats::parsed_of;
use crate::stats::split_lines;
use crate::stats::split_rec;
use crate::stats::stats_step;
use crate::stats::NO_DATA_MAX;
use crate::stats::NO_DATA_MIN;

verus! {

/// The store contents after appending each record's line, in order, to an
/// empty store.
pub open spec fn store_of(ps: Seq<PromptModel>) -> Seq<char>
    decreases ps.len(),
{
    if ps.len() == 0 {
        Seq::empty()
    } else {
        line_of(ps[0]) + seq!['\n'] + store_of(ps.subrange(1, ps.len() as int))
    }
}

/// Cutting at the break after one break-free line yields that line and then
/// the cut of the rest.
proof fn lemma_split_rec_line(line: Seq<char>, rest: Seq<char>, cur: Seq<char>)
    requires
        forall|k: int| 0 <= k < line.len() ==> #[trigger] line[k] != '\n',
    ensures
        split_rec(line + seq!['\n'] + rest, cur) == seq![cur + line] + split_rec(
            rest,
            Seq::empty(),
        ),
    decreases line.len(),
{
    let s = line + seq!['\n'] + rest;
    if line.len() == 0 {
        assert(s[0] == '\n');
        assert(s.subrange(1, s.len() as int) =~= rest);
        assert(cur + line =~= cur);
    } else {
        let tail = line.subrange(1, line.len() as int);
        assert(s[0] == line[0]);
        assert(s.subrange(1, s.len() as int) =~= tail + seq!['\n'] + rest);
        assert(forall|k: int| 0 <= k < tail.len() ==> #[trigger] tail[k] == line[k + 1]);
        lemma_split_rec_line(tail, rest, cur.push(line[0]));
        assert(cur.push(line[0]) + tail =~= cur + line);
    }
}

proof fn lemma_parsed_of_cons(l: Seq<char>, lines: Seq<Seq<char>>)
    ensures
        parsed_of(seq![l] + lines) == (match sp_parse_line(l) {
            Some(p) => seq![p],
            None => Seq::<PromptModel>::empty(),
        }) + parsed_of(lines),
    decreases lines.len(),
{
    let all = seq![l] + lines;
    let ml = (match sp_parse_line(l) {
        Some(p) => seq![p],
        None => Seq::<PromptModel>::empty(),
    });
    if lines.len() == 0 {
        assert(all.drop_last() =~= Seq::<Seq<char>>::empty());
        assert(all.last() == l);
        assert(parsed_of(all) == parsed_of(Seq::<Seq<char>>::empty()) + ml);
        assert(Seq::<PromptModel>::empty() + ml =~= ml + Seq::<PromptModel>::empty());
        assert(ml + parsed_of(lines) =~= ml + Seq::<PromptModel>::empty());
    } else {
        let mlast = (match sp_parse_line(lines.last()) {
            Some(p) => seq![p],
            None => Seq::<PromptModel>::empty(),
        });
        assert(all.drop_last() =~= seq![l] + lines.drop_last());
        assert(all.last() == lines.last());
        lemma_parsed_of_cons(l, lines.drop_last());
        assert(parsed_of(all) == (ml + parsed_of(lines.drop_last())) + mlast);
        assert((ml + parsed_of(lines.drop_last())) + mlast =~= ml + (parsed_of(lines.drop_last())
            + mlast));
    }
}

/// Writing any records, in order, to an empty store and reading the store
/// back yields exactly those records, in order.
pub proof fn lemma_store_read_back(ps: Seq<PromptModel>)
    requires
        forall|i: int| 0 <= i < ps.len() ==> prompt_fits(#[trigger] ps[i]),
    ensures
        parsed_of(split_lines(store_of(ps))) == ps,
    decreases ps.len(),
{
    if ps.len() == 0 {
        assert(split_rec(Seq::<char>::empty(), Seq::<char>::empty())
            =~= Seq::<Seq<char>>::empty());
        assert(parsed_of(split_lines(store_of(ps))) =~= ps);
    } else {
        let head = ps[0];
        let tail = ps.subrange(1, ps.len() as int);
        assert(prompt_fits(head));
        assert(forall|i: int| 0 <= i < tail.len() ==> #[trigger] tail[i] == ps[i + 1]);
        lemma_line_of_shape(head);
        lemma_split_rec_line(line_of(head), store_of(tail), Seq::empty());
        assert(Seq::<char>::empty() + line_of(head) =~= line_of(head));
        assert(split_lines(store_of(ps)) == seq![line_of(head)] + split_lines(store_of(tail)));
        lemma_parsed_of_cons(line_of(head), split_lines(store_of(tail)));
        lemma_line_round_trip(head);
        lemma_store_read_back(tail);
        assert(seq![head] + tail =~= ps);
    }
}

/// Aggregating N records counts exactly N occurrences in each of the four
/// tables.
pub proof fn lemma_aggregate_totals(ps: Seq<PromptModel>)
    ensures
        freq_total(aggregate(ps).unit_of_measure) == ps.len(),
        freq_total(aggregate(ps).place) == ps.len(),
        freq_total(aggregate(ps).adjective) == ps.len(),
        freq_total(aggregate(ps).noun) == ps.len(),
    decreases ps.len(),
{
    if ps.len() == 0 {
    } else {
        let pre = aggregate(ps.drop_last());
        lemma_aggregate_totals(ps.drop_last());
        lemma_freq_step_total(pre.unit_of_measure, ps.last().unit_of_measure);
        lemma_freq_step_total(pre.place, ps.last().place);
        lemma_freq_step_total(pre.adjective, ps.last().adjective);
        lemma_freq_step_total(pre.noun, ps.last().noun);
    }
}

/// How often `v` occurs in `vs`.
pub open spec fn occurrences(vs: Seq<Seq<char>>, v: Seq<char>) -> nat
    decreases vs.len(),
{
    if vs.len() == 0 {
        0
    } else {
        occurrences(vs.drop_last(), v) + (if vs.last() == v {
            1nat
        } else {
            0nat
        })
    }
}

pub open spec fn units_of(ps: Seq<PromptModel>) -> Seq<Seq<char>> {
    ps.map(|i: int, p: PromptModel| p.unit_of_measure)
}

pub open spec fn places_of(ps: Seq<PromptModel>) -> Seq<Seq<char>> {
    ps.map(|i: int, p: PromptModel| p.place)
}

pub open spec fn adjectives_of(ps: Seq<PromptModel>) -> Seq<Seq<char>> {
    ps.map(|i: int, p: PromptModel| p.adjective)
}

pub open spec fn nouns_of(ps: Seq<PromptModel>) -> Seq<Seq<char>> {
    ps.map(|i: int, p: PromptModel| p.noun)
}

/// Each table of the aggregate maps every value to exactly its number of
/// occurrences among the records, field by field.
pub proof fn lemma_aggregate_counts(ps: Seq<PromptModel>, v: Seq<char>)
    ensures
        freq_count(aggregate(ps).unit_of_measure, v) == occurrences(units_of(ps), v),
        freq_count(aggregate(ps).place, v) == occurrences(places_of(ps), v),
        freq_count(aggregate(ps).adjective, v) == occurrences(adjectives_of(ps), v),
        freq_count(aggregate(ps).noun, v) == occurrences(nouns_of(ps), v),
    decreases ps.len(),
{
    if ps.len() == 0 {
        assert(freq_count(Seq::<(Seq<char>, nat)>::empty(), v) == 0);
    } else {
        let pre = ps.drop_last();
        let last = ps.last();
        lemma_aggregate_counts(pre, v);
        lemma_freq_step_count(aggregate(pre).unit_of_measure, last.unit_of_measure, v);
        lemma_freq_step_count(aggregate(pre).place, last.place, v);
        lemma_freq_step_count(aggregate(pre).adjective, last.adjective, v);
        lemma_freq_step_count(aggregate(pre).noun, last.noun, v);
        assert(units_of(ps).drop_last() =~= units_of(pre));
        assert(units_of(ps).last() == last.unit_of_measure);
        assert(places_of(ps).drop_last() =~= places_of(pre));
        assert(places_of(ps).last() == last.place);
        assert(adjectives_of(ps).drop_last() =~= adjectives_of(pre));
        assert(adjectives_of(ps).last() == last.adjective);
        assert(nouns_of(ps).drop_last() =~= nouns_of(pre));
        assert(nouns_of(ps).last() == last.noun);
    }
}

/// Over records whose keys lie in the finite band, the aggregate's extremes
/// are the true least and greatest keys among the records.
pub proof fn lemma_aggregate_min_max(ps: Seq<PromptModel>)
    requires
        ps.len() > 0,
        forall|i: int|
            0 <= i < ps.len() ==> NO_DATA_MAX <= (#[trigger] ps[i]).number_key <= NO_DATA_MIN,
    ensures
        exists|i: int|
            0 <= i < ps.len() && (#[trigger] ps[i]).number_key == aggregate(ps).min_number,
        exists|i: int|
            0 <= i < ps.len() && (#[trigger] ps[i]).number_key == aggregate(ps).max_number,
        forall|i: int|
            0 <= i < ps.len() ==> aggregate(ps).min_number <= (#[trigger] ps[i]).number_key,
        forall|i: int|
            0 <= i < ps.len() ==> (#[trigger] ps[i]).number_key <= aggregate(ps).max_number,
    decreases ps.len(),
{
    if ps.len() == 1 {
        assert(ps.drop_last() =~= Seq::<PromptModel>::empty());
        assert(aggregate(Seq::<PromptModel>::empty()) == init_stats());
        assert(ps.last() == ps[0]);
        assert(aggregate(ps) == stats_step(init_stats(), ps[0]));
        assert(ps[0].number_key == aggregate(ps).min_number);
        assert(ps[0].number_key == aggregate(ps).max_number);
        assert(forall|i: int|
            0 <= i < ps.len() ==> aggregate(ps).min_number <= (#[trigger] ps[i]).number_key);
        assert(forall|i: int|
            0 <= i < ps.len() ==> (#[trigger] ps[i]).number_key <= aggregate(ps).max_number);
    } else {
        let pre = ps.drop_last();
        assert(forall|i: int| 0 <= i < pre.len() ==> #[trigger] pre[i] == ps[i]);
        lemma_aggregate_min_max(pre);
        let last = ps.last();
        assert(aggregate(ps) == stats_step(aggregate(pre), last));
        if last.number_key < aggregate(pre).min_number {
            assert(ps[ps.len() - 1].number_key == aggregate(ps).min_number);
        } else {
            let k = choose|k: int|
                0 <= k < pre.len() && (#[trigger] pre[k]).number_key == aggregate(pre).min_number;
            assert(ps[k].number_key == aggregate(ps).min_number);
        }
        if last.number_key > aggregate(pre).max_number {
            assert(ps[ps.len() - 1].number_key == aggregate(ps).max_number);
        } else {
            let k = choose|k: int|
                0 <= k < pre.len() && (#[trigger] pre[k]).number_key == aggregate(pre).max_number;
            assert(ps[k].number_key == aggregate(ps).max_number);
        }
        assert forall|i: int|
            0 <= i < ps.len() implies aggregate(ps).min_number <= (#[trigger] ps[i]).number_key by {
            if i < ps.len() - 1 {
                assert(pre[i] == ps[i]);
                assert(aggregate(pre).min_number <= pre[i].number_key);
            }
        }
        assert forall|i: int|
            0 <= i < ps.len() implies (#[trigger] ps[i]).number_key <= aggregate(ps).max_number by {
            if i < ps.len() - 1 {
                assert(pre[i] == ps[i]);
                assert(pre[i].number_key <= aggregate(pre).max_number);
            }
        }
    }
}

/// A store with no well-formed line at all aggregates to the no-data
/// result: the sentinel extremes, with nothing counted.
pub proof fn lemma_no_valid_lines(lines: Seq<Seq<char>>)
    requires
        forall|i: int| 0 <= i < lines.len() ==> sp_parse_line(#[trigger] lines[i]) is None,
    ensures
        parsed_of(lines).len() == 0,
        aggregate(parsed_of(lines)) == init_stats(),
        aggregate(parsed_of(lines)).min_number == NO_DATA_MIN,
        aggregate(parsed_of(lines)).max_number == NO_DATA_MAX,
    decreases lines.len(),
{
    if lines.len() == 0 {
    } else {
        assert(sp_parse_line(lines[lines.len() - 1]) is None);
        assert(forall|i: int|
            0 <= i < lines.drop_last().len() ==> #[trigger] lines.drop_last()[i] == lines[i]);
        lemma_no_valid_lines(lines.drop_last());
    }
    assert(parsed_of(lines) =~= Seq::<PromptModel>::empty());
}

/// A malformed line anywhere in the store leaves the aggregate exactly as
/// it would be with that line absent.
pub proof fn lemma_malformed_line_skipped(
    pre: Seq<Seq<char>>,
    bad: Seq<char>,
    post: Seq<Seq<char>>,
)
    requires
        sp_parse_line(bad) is None,
    ensures
        parsed_of(pre + seq![bad] + post) == parsed_of(pre + post),
        aggregate(parsed_of(pre + seq![bad] + post)) == aggregate(parsed_of(pre + post)),
    decreases post.len(),
{
    let all = pre + seq![bad] + post;
    if post.len() == 0 {
        assert(all.drop_last() =~= pre);
        assert(all.last() == bad);
        assert(pre + post =~= pre);
        assert(parsed_of(all) =~= parsed_of(pre));
    } else {
        assert(all.drop_last() =~= pre + seq![bad] + post.drop_last());
        assert(all.last() == post.last());
        assert((pre + post).drop_last() =~= pre + post.drop_last());
        assert((pre + post).last() == post.last());
        lemma_malformed_line_skipped(pre, bad, post.drop_last());
    }
}

} // verus!
