//! Turning dictionary records into display results: one per distinct title,
//! ordered by net community score.
use vstd::prelude::*;
use crate::sorting::{
    insert_sorted, stable_sort, is_sorted, is_strict_weak_order, distinct_keys, lemma_insert_at,
    lemma_sort_is_sorted, lemma_sort_distinct, lemma_sort_contents,
};
use crate::text::{
    lex_lt, lex_less, chars_of, lemma_lex_total, lemma_lex_irreflexive, lemma_lex_transitive,
    lemma_lex_asymmetric,
};

verus! {

broadcast use vstd::std_specs::vec::axiom_spec_into_iter;

/// One definition of a term, as the dictionary service returns it.
pub struct Meaning {
    pub definition: String,
    pub example: String,
    pub thumbs_up: i32,
    pub thumbs_down: i32,
}

pub struct MeaningView {
    pub definition: Seq<char>,
    pub example: Seq<char>,
    pub thumbs_up: int,
    pub thumbs_down: int,
}

impl View for Meaning {
    type V = MeaningView;

    open spec fn view(&self) -> MeaningView {
        MeaningView {
            definition: self.definition@,
            example: self.example@,
            thumbs_up: self.thumbs_up as int,
            thumbs_down: self.thumbs_down as int,
        }
    }
}

/// What the host displays for one definition, and what it copies on selection.
pub struct SearchResult {
    pub title: String,
    pub context: String,
    pub extra: String,
}

pub struct ResultView {
    pub title: Seq<char>,
    pub context: Seq<char>,
    pub extra: Seq<char>,
}

impl View for SearchResult {
    type V = ResultView;

    open spec fn view(&self) -> ResultView {
        ResultView { title: self.title@, context: self.context@, extra: self.extra@ }
    }
}

pub open spec fn meaning_views(ms: Seq<Meaning>) -> Seq<MeaningView> {
    ms.map_values(|m: Meaning| m@)
}

pub open spec fn result_views(rs: Seq<SearchResult>) -> Seq<ResultView> {
    rs.map_values(|r: SearchResult| r@)
}

/// The payload copied for a definition: the definition, a line feed, the example.
pub open spec fn extra_of(definition: Seq<char>, example: Seq<char>) -> Seq<char> {
    definition + seq!['\n'] + example
}

/// A display record together with the net score that orders it.
pub type Entry = (ResultView, int);

pub open spec fn entry_of(m: MeaningView) -> Entry {
    (
        ResultView {
            title: m.definition,
            context: m.example,
            extra: extra_of(m.definition, m.example),
        },
        m.thumbs_up - m.thumbs_down,
    )
}

pub open spec fn title_before() -> spec_fn(Entry, Entry) -> bool {
    |a: Entry, b: Entry| lex_lt(a.0.title, b.0.title)
}

pub open spec fn score_before() -> spec_fn(Entry, Entry) -> bool {
    |a: Entry, b: Entry| a.1 < b.1
}

/// Drops each entry whose title equals that of the entry just before it.
pub open spec fn dedup_titles(s: Seq<Entry>) -> Seq<Entry>
    decreases s.len(),
{
    if s.len() <= 1 {
        s
    } else {
        let d = dedup_titles(s.drop_last());
        if s.last().0.title == s[s.len() - 2].0.title {
            d
        } else {
            d.push(s.last())
        }
    }
}

/// The entries of the records, sorted by title.
pub open spec fn title_sorted(ms: Seq<MeaningView>) -> Seq<Entry> {
    stable_sort(ms.map_values(|m: MeaningView| entry_of(m)), title_before())
}

/// Group by title, keep the first of each title, then order by ascending score.
pub open spec fn ranked_entries(ms: Seq<MeaningView>) -> Seq<Entry> {
    stable_sort(dedup_titles(title_sorted(ms)), score_before())
}

/// No entry before position `k` has the title of the entry at `k`.
pub open spec fn first_of_title(s: Seq<Entry>, k: int) -> bool {
    forall|k2: int| 0 <= k2 < k ==> (#[trigger] s[k2]).0.title != s[k].0.title
}

pub open spec fn ranked(ms: Seq<MeaningView>) -> Seq<ResultView> {
    ranked_entries(ms).map_values(|e: Entry| e.0)
}

/// A result under construction, with its score and its title as characters.
struct Scored {
    result: SearchResult,
    score: i64,
    key: Vec<char>,
}

impl Scored {
    spec fn entry(&self) -> Entry {
        (self.result@, self.score as int)
    }

    spec fn wf(&self) -> bool {
        self.key@ == self.result.title@
    }
}

spec fn entries(v: Seq<Scored>) -> Seq<Entry> {
    v.map_values(|s: Scored| s.entry())
}

spec fn all_wf(v: Seq<Scored>) -> bool {
    forall|i: int| 0 <= i < v.len() ==> (#[trigger] v[i]).wf()
}

spec fn order(by_title: bool) -> spec_fn(Entry, Entry) -> bool {
    if by_title {
        title_before()
    } else {
        score_before()
    }
}

fn to_scored(m: Meaning) -> (s: Scored)
    ensures
        s.wf(),
        s.entry() == entry_of(m@),
{
    let mut extra = m.definition.clone();
    extra.append("\n");
    extra.append(m.example.as_str());
    proof {
        reveal_strlit("\n");
        assert(extra@ =~= extra_of(m.definition@, m.example@));
    }
    let key = chars_of(&m.definition);
    let score = m.thumbs_up as i64 - m.thumbs_down as i64;
    Scored { result: SearchResult { title: m.definition, context: m.example, extra }, score, key }
}

fn before(a: &Scored, b: &Scored, by_title: bool) -> (r: bool)
    requires
        a.wf(),
        b.wf(),
    ensures
        r == order(by_title)(a.entry(), b.entry()),
{
    if by_title {
        lex_less(&a.key, &b.key)
    } else {
        a.score < b.score
    }
}

fn insert_entry(v: &mut Vec<Scored>, x: Scored, by_title: bool)
    requires
        all_wf(old(v)@),
        x.wf(),
    ensures
        all_wf(final(v)@),
        entries(final(v)@) == insert_sorted(entries(old(v)@), x.entry(), order(by_title)),
{
    let mut j: usize = v.len();
    while j > 0 && before(&x, &v[j - 1], by_title)
        invariant
            j <= v.len(),
            all_wf(v@),
            x.wf(),
            forall|k: int| j <= k < v.len() ==> order(by_title)(x.entry(), #[trigger] v@[k].entry()),
        decreases j,
    {
        j = j - 1;
    }
    proof {
        let es = entries(v@);
        assert forall|k: int| j <= k < es.len() implies order(by_title)(x.entry(), #[trigger] es[k]) by {
            assert(es[k] == v@[k].entry());
        }
        if j > 0 {
            assert(es[j - 1] == v@[j - 1].entry());
        }
        lemma_insert_at(es, x.entry(), order(by_title), j as int);
        assert(es.insert(j as int, x.entry()) =~= entries(v@.insert(j as int, x)));
    }
    v.insert(j, x);
}

fn sort_entries(v: Vec<Scored>, by_title: bool) -> (r: Vec<Scored>)
    requires
        all_wf(v@),
    ensures
        all_wf(r@),
        entries(r@) == stable_sort(entries(v@), order(by_title)),
{
    let ghost src = v@;
    let mut out: Vec<Scored> = Vec::new();
    for x in it: v.into_iter()
        invariant
            it.seq() == src,
            all_wf(src),
            all_wf(out@),
            entries(out@) == stable_sort(entries(src.take(it.index() as int)), order(by_title)),
    {
        proof {
            let i = it.index() as int;
            assert(src[i] == x);
            assert(entries(src.take(i + 1)).drop_last() =~= entries(src.take(i)));
        }
        insert_entry(&mut out, x, by_title);
    }
    proof {
        assert(src.take(src.len() as int) =~= src);
    }
    out
}

fn dedup_entries(v: Vec<Scored>) -> (r: Vec<Scored>)
    requires
        all_wf(v@),
    ensures
        all_wf(r@),
        entries(r@) == dedup_titles(entries(v@)),
{
    let ghost src = v@;
    let mut out: Vec<Scored> = Vec::new();
    for x in it: v.into_iter()
        invariant
            it.seq() == src,
            all_wf(src),
            all_wf(out@),
            entries(out@) == dedup_titles(entries(src.take(it.index() as int))),
            it.index() > 0 ==> out.len() > 0 && out@.last().result.title@ == src[it.index() - 1].result.title@,
    {
        let ghost i = it.index() as int;
        proof {
            let t = entries(src.take(i + 1));
            assert(src[i] == x);
            assert(t.drop_last() =~= entries(src.take(i)));
            assert(t.last() == x.entry());
            if i > 0 {
                assert(t[t.len() - 2] == src[i - 1].entry());
            }
        }
        let ghost prev = out@;
        if out.len() == 0 {
            proof {
                if i > 0 {
                    assert(prev.len() > 0);
                }
                assert(entries(src.take(i + 1)) =~= seq![x.entry()]);
            }
            out.push(x);
            proof {
                assert(entries(out@) =~= seq![x.entry()]);
            }
        } else {
            let n = out.len();
            let same = !lex_less(&out[n - 1].key, &x.key) && !lex_less(&x.key, &out[n - 1].key);
            proof {
                lemma_lex_total(out@[n - 1].key@, x.key@);
                lemma_lex_irreflexive(x.key@);
                assert(out@[n - 1].wf());
                assert(src[i].wf());
                if i == 0 {
                    assert(entries(src.take(0)) =~= Seq::<Entry>::empty());
                }
                assert(i > 0);
                assert(same <==> x.result.title@ == src[i - 1].result.title@);
            }
            if !same {
                out.push(x);
                proof {
                    assert(entries(out@) =~= entries(prev).push(x.entry()));
                }
            }
        }
    }
    proof {
        assert(src.take(src.len() as int) =~= src);
    }
    out
}

/// Ranks the definitions of one lookup for display.
pub fn rank(meanings: Vec<Meaning>) -> (r: Vec<SearchResult>)
    ensures
        result_views(r@) == ranked(meaning_views(meanings@)),
{
    let ghost src = meanings@;
    let mut scored: Vec<Scored> = Vec::new();
    for m in it: meanings.into_iter()
        invariant
            it.seq() == src,
            all_wf(scored@),
            entries(scored@) == meaning_views(src.take(it.index() as int)).map_values(
                |v: MeaningView| entry_of(v),
            ),
    {
        proof {
            assert(src[it.index() as int] == m);
        }
        let ghost prev = scored@;
        let ghost i = it.index() as int;
        let s = to_scored(m);
        scored.push(s);
        proof {
            assert(entries(scored@) =~= entries(prev).push(s.entry()));
            assert(meaning_views(src.take(i + 1)) =~= meaning_views(src.take(i)).push(src[i]@));
            assert(meaning_views(src.take(i + 1)).map_values(|v: MeaningView| entry_of(v))
                =~= meaning_views(src.take(i)).map_values(|v: MeaningView| entry_of(v)).push(
                entry_of(src[i]@),
            ));
        }
    }
    proof {
        assert(src.take(src.len() as int) =~= src);
    }
    let by_title = sort_entries(scored, true);
    let unique = dedup_entries(by_title);
    let by_score = sort_entries(unique, false);
    let ghost fin = by_score@;
    let mut out: Vec<SearchResult> = Vec::new();
    for s in it: by_score.into_iter()
        invariant
            it.seq() == fin,
            result_views(out@) == entries(fin.take(it.index() as int)).map_values(|e: Entry| e.0),
    {
        proof {
            assert(fin[it.index() as int] == s);
        }
        let ghost prev = out@;
        let ghost i = it.index() as int;
        out.push(s.result);
        proof {
            assert(result_views(out@) =~= result_views(prev).push(fin[i].result@));
            assert(entries(fin.take(i + 1)) =~= entries(fin.take(i)).push(fin[i].entry()));
            assert(entries(fin.take(i + 1)).map_values(|e: Entry| e.0) =~= entries(
                fin.take(i),
            ).map_values(|e: Entry| e.0).push(fin[i].result@));
        }
    }
    proof {
        assert(fin.take(fin.len() as int) =~= fin);
    }
    out
}

pub open spec fn title_of() -> spec_fn(Entry) -> Seq<char> {
    |e: Entry| e.0.title
}

proof fn lemma_title_order()
    ensures
        is_strict_weak_order(title_before()),
{
    assert forall|a: Entry, b: Entry| #[trigger] title_before()(a, b) implies !title_before()(b, a) by {
        lemma_lex_asymmetric(a.0.title, b.0.title);
    }
    assert forall|a: Entry, b: Entry, c: Entry|
        !#[trigger] title_before()(b, a) && !#[trigger] title_before()(c, b) implies !#[trigger] title_before()(c, a) by {
        if lex_lt(c.0.title, a.0.title) {
            lemma_lex_total(a.0.title, b.0.title);
            if lex_lt(a.0.title, b.0.title) {
                lemma_lex_transitive(c.0.title, a.0.title, b.0.title);
            }
        }
    }
}

proof fn lemma_score_order()
    ensures
        is_strict_weak_order(score_before()),
{
}

/// Dropping repeated titles from a title-sorted sequence leaves titles in
/// strictly increasing order, each element taken from the input.
proof fn lemma_dedup_sorted(s: Seq<Entry>)
    requires
        is_sorted(s, title_before()),
    ensures
        forall|i: int, j: int|
            0 <= i < j < dedup_titles(s).len() ==> lex_lt(
                (#[trigger] dedup_titles(s)[i]).0.title,
                (#[trigger] dedup_titles(s)[j]).0.title,
            ),
        forall|i: int|
            0 <= i < dedup_titles(s).len() ==> exists|k: int|
                0 <= k < s.len() && s[k] == #[trigger] dedup_titles(s)[i] && first_of_title(s, k),
        s.len() > 0 ==> dedup_titles(s).len() > 0 && dedup_titles(s).last().0.title
            == s.last().0.title,
    decreases s.len(),
{
    if s.len() == 1 {
        assert(s[0] == dedup_titles(s)[0]);
        assert(first_of_title(s, 0));
    } else if s.len() > 1 {
        let d = s.drop_last();
        let n = s.len();
        assert(is_sorted(d, title_before())) by {
            assert forall|i: int, j: int| 0 <= i < j < d.len() implies !title_before()(
                #[trigger] d[j],
                #[trigger] d[i],
            ) by {
                assert(d[i] == s[i] && d[j] == s[j]);
            }
        }
        lemma_dedup_sorted(d);
        let dd = dedup_titles(d);
        let r = dedup_titles(s);
        if s.last().0.title != s[n - 2].0.title {
            let lt = s.last().0.title;
            let pt = s[n - 2].0.title;
            assert(!title_before()(s[n - 1], s[n - 2]));
            lemma_lex_total(pt, lt);
            assert(lex_lt(pt, lt));
            assert forall|i: int| 0 <= i < dd.len() implies lex_lt((#[trigger] dd[i]).0.title, lt) by {
                let k = choose|k: int| 0 <= k < d.len() && d[k] == dd[i] && first_of_title(d, k);
                assert(s[k] == d[k]);
                let kt = s[k].0.title;
                if k < n - 2 {
                    assert(!title_before()(s[n - 2], s[k]));
                    lemma_lex_total(kt, pt);
                    if lex_lt(kt, pt) {
                        lemma_lex_transitive(kt, pt, lt);
                    }
                }
            }
            assert forall|i: int, j: int| 0 <= i < j < r.len() implies lex_lt(
                (#[trigger] r[i]).0.title,
                (#[trigger] r[j]).0.title,
            ) by {
                assert(r[i] == dd[i]);
                if j < r.len() - 1 {
                    assert(r[j] == dd[j]);
                }
            }
            assert forall|i: int| 0 <= i < r.len() implies exists|k: int|
                0 <= k < s.len() && s[k] == #[trigger] r[i] && first_of_title(s, k) by {
                if i < r.len() - 1 {
                    assert(r[i] == dd[i]);
                    let k = choose|k: int| 0 <= k < d.len() && d[k] == dd[i] && first_of_title(d, k);
                    assert(s[k] == d[k]);
                    assert forall|k2: int| 0 <= k2 < k implies (#[trigger] s[k2]).0.title != s[k].0.title by {
                        assert(s[k2] == d[k2]);
                    }
                } else {
                    assert(s[n - 1] == r[i]);
                    assert forall|k2: int| 0 <= k2 < n - 1 implies (#[trigger] s[k2]).0.title != lt by {
                        let kt = s[k2].0.title;
                        if k2 < n - 2 {
                            assert(!title_before()(s[n - 2], s[k2]));
                            lemma_lex_total(kt, pt);
                            if lex_lt(kt, pt) {
                                lemma_lex_transitive(kt, pt, lt);
                            }
                        }
                        lemma_lex_irreflexive(lt);
                    }
                    assert(first_of_title(s, n - 1));
                }
            }
        } else {
            assert forall|i: int| 0 <= i < r.len() implies exists|k: int|
                0 <= k < s.len() && s[k] == #[trigger] r[i] && first_of_title(s, k) by {
                let k = choose|k: int| 0 <= k < d.len() && d[k] == dd[i] && first_of_title(d, k);
                assert(s[k] == d[k]);
                assert forall|k2: int| 0 <= k2 < k implies (#[trigger] s[k2]).0.title != s[k].0.title by {
                    assert(s[k2] == d[k2]);
                }
            }
        }
    }
}

/// Within one search, no two results share a title.
pub proof fn lemma_ranked_titles_distinct(ms: Seq<MeaningView>)
    ensures
        forall|i: int, j: int|
            0 <= i < j < ranked(ms).len() ==> (#[trigger] ranked(ms)[i]).title != (
            #[trigger] ranked(ms)[j]).title,
{
    let by_title = title_sorted(ms);
    let d = dedup_titles(by_title);
    lemma_title_order();
    lemma_sort_is_sorted(ms.map_values(|m: MeaningView| entry_of(m)), title_before());
    lemma_dedup_sorted(by_title);
    assert(distinct_keys(d, title_of())) by {
        assert forall|i: int, j: int| 0 <= i < j < d.len() implies title_of()(#[trigger] d[i])
            != title_of()(#[trigger] d[j]) by {
            lemma_lex_irreflexive(d[i].0.title);
        }
    }
    lemma_sort_distinct(d, score_before(), title_of());
    let t = ranked_entries(ms);
    assert forall|i: int, j: int| 0 <= i < j < ranked(ms).len() implies (#[trigger] ranked(
        ms,
    )[i]).title != (#[trigger] ranked(ms)[j]).title by {
        assert(ranked(ms)[i] == t[i].0 && ranked(ms)[j] == t[j].0);
        assert(title_of()(t[i]) != title_of()(t[j]));
    }
}

/// Results come in order of ascending net score.
pub proof fn lemma_ranked_scores_ascending(ms: Seq<MeaningView>)
    ensures
        ranked(ms) == ranked_entries(ms).map_values(|e: Entry| e.0),
        forall|i: int, j: int|
            0 <= i < j < ranked_entries(ms).len() ==> (#[trigger] ranked_entries(ms)[i]).1 <= (
            #[trigger] ranked_entries(ms)[j]).1,
{
    let by_title = title_sorted(ms);
    lemma_score_order();
    lemma_sort_is_sorted(dedup_titles(by_title), score_before());
    let t = ranked_entries(ms);
    assert forall|i: int, j: int| 0 <= i < j < t.len() implies (#[trigger] t[i]).1 <= (
    #[trigger] t[j]).1 by {
        assert(!score_before()(t[j], t[i]));
    }
}

/// Of the records that share a title, the one kept is the first of them in
/// title order, whatever the scores.
pub proof fn lemma_ranked_keeps_first_of_title(ms: Seq<MeaningView>)
    ensures
        forall|i: int|
            0 <= i < ranked_entries(ms).len() ==> exists|k: int|
                0 <= k < title_sorted(ms).len() && title_sorted(ms)[k]
                    == #[trigger] ranked_entries(ms)[i] && first_of_title(title_sorted(ms), k),
{
    broadcast use vstd::seq_lib::group_to_multiset_ensures;

    let by_title = title_sorted(ms);
    let d = dedup_titles(by_title);
    let t = ranked_entries(ms);
    lemma_title_order();
    lemma_sort_is_sorted(ms.map_values(|m: MeaningView| entry_of(m)), title_before());
    lemma_dedup_sorted(by_title);
    lemma_sort_contents(d, score_before());
    assert forall|i: int| 0 <= i < t.len() implies exists|k: int|
        0 <= k < by_title.len() && by_title[k] == #[trigger] t[i] && first_of_title(by_title, k) by {
        assert(t.to_multiset().count(t[i]) > 0);
        assert(d.to_multiset().count(t[i]) > 0);
        let m = choose|m: int| 0 <= m < d.len() && d[m] == t[i];
        assert(d[m] == dedup_titles(by_title)[m]);
    }
}

} // verus!
