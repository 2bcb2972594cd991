//! The sitemap assembler: which records go to which output, in what order.

use crate::config::{Config, ConfigView, SitemapView};
use crate::record::{distinct_routes, views, RouteInfo, RouteView};
use crate::text::{chars_le, chars_of, lemma_lex_le_refl, lemma_lex_le_total, lemma_lex_le_trans, lex_le};
use vstd::prelude::*;

verus! {

/// An output that records are selected for.
#[derive(Clone, Debug, PartialEq, Eq)]
pub enum Destination {
    /// The main JSON index.
    MainJson,
    /// The XML sitemap.
    MainXml,
    /// The custom sitemap with the given name.
    Custom(String),
}

/// The mathematical content of a `Destination`.
pub ghost enum DestinationView {
    MainJson,
    MainXml,
    Custom(Seq<char>),
}

impl View for Destination {
    type V = DestinationView;

    open spec fn view(&self) -> DestinationView {
        match *self {
            Destination::MainJson => DestinationView::MainJson,
            Destination::MainXml => DestinationView::MainXml,
            Destination::Custom(name) => DestinationView::Custom(name@),
        }
    }
}

/// The records of one custom sitemap that has any.
#[derive(Clone, Debug, PartialEq, Eq)]
pub struct CustomOutput {
    /// The name of the sitemap.
    pub name: String,
    /// Where it is written.
    pub output: String,
    /// Its records, sorted by route; never empty.
    pub routes: Vec<RouteInfo>,
}

/// The mathematical content of a `CustomOutput`.
pub ghost struct CustomOutputView {
    pub name: Seq<char>,
    pub output: Seq<char>,
    pub routes: Seq<RouteView>,
}

impl View for CustomOutput {
    type V = CustomOutputView;

    open spec fn view(&self) -> CustomOutputView {
        CustomOutputView { name: self.name@, output: self.output@, routes: views(self.routes@) }
    }
}

/// The views of a sequence of custom outputs.
pub open spec fn output_views(outputs: Seq<CustomOutput>) -> Seq<CustomOutputView> {
    outputs.map_values(|o: CustomOutput| o@)
}

/// The records of every output of one run.
#[derive(Clone, Debug, PartialEq, Eq)]
pub struct Plan {
    /// The records of the main JSON index.
    pub main_json: Vec<RouteInfo>,
    /// The records of the XML sitemap.
    pub main_xml: Vec<RouteInfo>,
    /// The custom sitemaps that have records, in the order of the configuration.
    pub custom: Vec<CustomOutput>,
}

/// The routes never go down from one record to the next.
pub open spec fn ordered(records: Seq<RouteView>) -> bool {
    forall|i: int, j: int|
        0 <= i <= j < records.len() ==> lex_le(
            (#[trigger] records[i]).route,
            (#[trigger] records[j]).route,
        )
}

/// `sorted` with `record` put behind the last record whose route is not
/// greater than its own.
pub open spec fn insert_sorted(sorted: Seq<RouteView>, record: RouteView) -> Seq<RouteView>
    decreases sorted.len(),
{
    if sorted.len() == 0 || lex_le(sorted.last().route, record.route) {
        sorted.push(record)
    } else {
        insert_sorted(sorted.drop_last(), record).push(sorted.last())
    }
}

/// The records sorted by route, ascending; records with equal routes keep
/// their order.
pub open spec fn sorted_by_route(records: Seq<RouteView>) -> Seq<RouteView>
    decreases records.len(),
{
    if records.len() == 0 {
        records
    } else {
        insert_sorted(sorted_by_route(records.drop_last()), records.last())
    }
}

/// Whether a route belongs to a destination.
pub open spec fn belongs(config: ConfigView, destination: DestinationView, route: Seq<char>) -> bool {
    match destination {
        DestinationView::MainJson => config.in_main_json(route),
        DestinationView::MainXml => config.in_main_xml(route),
        DestinationView::Custom(name) => config.in_custom(name, route),
    }
}

/// `belongs` as a predicate on records.
pub open spec fn member_filter(config: ConfigView, destination: DestinationView) -> spec_fn(
    RouteView,
) -> bool {
    |record: RouteView| belongs(config, destination, record.route)
}

/// What is handed to the writer of a destination: the records whose routes
/// belong to it, sorted by route.
pub open spec fn output_for(
    config: ConfigView,
    destination: DestinationView,
    all: Seq<RouteView>,
) -> Seq<RouteView> {
    sorted_by_route(all.filter(member_filter(config, destination)))
}

/// The outputs of the custom sitemaps `sitemaps`, leaving out those without
/// records.
pub open spec fn custom_outputs(
    config: ConfigView,
    sitemaps: Seq<(Seq<char>, SitemapView)>,
    all: Seq<RouteView>,
) -> Seq<CustomOutputView>
    decreases sitemaps.len(),
{
    if sitemaps.len() == 0 {
        Seq::<CustomOutputView>::empty()
    } else {
        let before = custom_outputs(config, sitemaps.drop_last(), all);
        let routes = output_for(config, DestinationView::Custom(sitemaps.last().0), all);
        if routes.len() == 0 {
            before
        } else {
            before.push(
                CustomOutputView { name: sitemaps.last().0, output: sitemaps.last().1.output, routes },
            )
        }
    }
}

/// The names of the outputs, in order.
pub open spec fn output_names(outputs: Seq<CustomOutputView>) -> Seq<Seq<char>> {
    outputs.map_values(|o: CustomOutputView| o.name)
}

/// Every custom output carries the name of one of the sitemaps, and with
/// distinct sitemap names no two outputs share a name.
pub proof fn lemma_custom_outputs_distinct(
    config: ConfigView,
    sitemaps: Seq<(Seq<char>, SitemapView)>,
    all: Seq<RouteView>,
)
    requires
        forall|i: int, j: int|
            0 <= i < j < sitemaps.len() ==> (#[trigger] sitemaps[i]).0 != (#[trigger] sitemaps[j]).0,
    ensures
        output_names(custom_outputs(config, sitemaps, all)).no_duplicates(),
        forall|k: int|
            0 <= k < custom_outputs(config, sitemaps, all).len() ==> exists|i: int|
                0 <= i < sitemaps.len() && (#[trigger] sitemaps[i]).0 == (
                #[trigger] custom_outputs(config, sitemaps, all)[k]).name,
    decreases sitemaps.len(),
{
    let outputs = custom_outputs(config, sitemaps, all);
    if sitemaps.len() > 0 {
        let rest = sitemaps.drop_last();
        let last = sitemaps.last();
        let before = custom_outputs(config, rest, all);
        assert forall|i: int, j: int| 0 <= i < j < rest.len() implies (#[trigger] rest[i]).0 != (
        #[trigger] rest[j]).0 by {
            assert(rest[i] == sitemaps[i]);
            assert(rest[j] == sitemaps[j]);
        }
        lemma_custom_outputs_distinct(config, rest, all);
        assert(sitemaps[sitemaps.len() - 1] == last);
        assert forall|k: int| 0 <= k < before.len() implies (#[trigger] before[k]).name != last.0
            && exists|i: int|
            0 <= i < sitemaps.len() && (#[trigger] sitemaps[i]).0 == before[k].name by {
            let i = choose|i: int| 0 <= i < rest.len() && (#[trigger] rest[i]).0 == before[k].name;
            assert(sitemaps[i] == rest[i]);
        }
        assert forall|k: int| 0 <= k < outputs.len() implies exists|i: int|
            0 <= i < sitemaps.len() && (#[trigger] sitemaps[i]).0 == (#[trigger] outputs[k]).name by {
            if k < before.len() {
                assert(outputs[k] == before[k]);
            } else {
                assert(outputs[k].name == last.0);
            }
        }
        let names = output_names(outputs);
        let names_before = output_names(before);
        assert forall|a: int, b: int| 0 <= a < names.len() && 0 <= b < names.len() && a
            != b implies names[a] != names[b] by {
            if a < before.len() && b < before.len() {
                assert(names[a] == names_before[a]);
                assert(names[b] == names_before[b]);
            } else if a < before.len() {
                assert(names[a] == before[a].name);
            } else if b < before.len() {
                assert(names[b] == before[b].name);
            }
        }
    }
}

/// Where `insert_sorted` puts the record: at the position `p` that has only
/// greater routes from it on and a route that is not greater just before it.
pub proof fn lemma_insert_position(sorted: Seq<RouteView>, record: RouteView, p: int)
    requires
        0 <= p <= sorted.len(),
        p == 0 || lex_le(sorted[p - 1].route, record.route),
        forall|j: int| p <= j < sorted.len() ==> !lex_le((#[trigger] sorted[j]).route, record.route),
    ensures
        insert_sorted(sorted, record) == sorted.insert(p, record),
    decreases sorted.len() - p,
{
    if p == sorted.len() {
        assert(sorted.insert(p, record) =~= sorted.push(record));
    } else {
        let rest = sorted.drop_last();
        assert(!lex_le(sorted[sorted.len() - 1].route, record.route));
        assert forall|j: int| p <= j < rest.len() implies !lex_le(
            (#[trigger] rest[j]).route,
            record.route,
        ) by {
            assert(rest[j] == sorted[j]);
        }
        lemma_insert_position(rest, record, p);
        assert(rest.insert(p, record).push(sorted.last()) =~= sorted.insert(p, record));
    }
}

/// `insert_sorted` adds the record somewhere and changes nothing else.
pub proof fn lemma_insert_sorted_inserts(sorted: Seq<RouteView>, record: RouteView) -> (p: int)
    ensures
        0 <= p <= sorted.len(),
        insert_sorted(sorted, record) == sorted.insert(p, record),
    decreases sorted.len(),
{
    if sorted.len() == 0 || lex_le(sorted.last().route, record.route) {
        assert(sorted.insert(sorted.len() as int, record) =~= sorted.push(record));
        sorted.len() as int
    } else {
        let rest = sorted.drop_last();
        let p = lemma_insert_sorted_inserts(rest, record);
        assert(rest.insert(p, record).push(sorted.last()) =~= sorted.insert(p, record));
        p
    }
}

/// Inserting into ordered records leaves them ordered.
pub proof fn lemma_insert_sorted_ordered(sorted: Seq<RouteView>, record: RouteView)
    requires
        ordered(sorted),
    ensures
        ordered(insert_sorted(sorted, record)),
    decreases sorted.len(),
{
    let result = insert_sorted(sorted, record);
    if sorted.len() == 0 || lex_le(sorted.last().route, record.route) {
        assert forall|i: int, j: int| 0 <= i <= j < result.len() implies lex_le(
            (#[trigger] result[i]).route,
            (#[trigger] result[j]).route,
        ) by {
            if j < sorted.len() {
                assert(lex_le(sorted[i].route, sorted[j].route));
            } else if i < sorted.len() {
                assert(lex_le(sorted[i].route, sorted[sorted.len() - 1].route));
                lemma_lex_le_trans(sorted[i].route, sorted.last().route, record.route);
            } else {
                lemma_lex_le_refl(record.route);
            }
        }
    } else {
        let rest = sorted.drop_last();
        let last = sorted.last();
        assert forall|i: int, j: int| 0 <= i <= j < rest.len() implies lex_le(
            (#[trigger] rest[i]).route,
            (#[trigger] rest[j]).route,
        ) by {
            assert(lex_le(sorted[i].route, sorted[j].route));
        }
        lemma_insert_sorted_ordered(rest, record);
        let p = lemma_insert_sorted_inserts(rest, record);
        let inner = insert_sorted(rest, record);
        lemma_lex_le_total(last.route, record.route);
        assert forall|i: int, j: int| 0 <= i <= j < result.len() implies lex_le(
            (#[trigger] result[i]).route,
            (#[trigger] result[j]).route,
        ) by {
            if j < inner.len() {
                assert(lex_le(inner[i].route, inner[j].route));
            } else if i < inner.len() {
                if i < p {
                    assert(inner[i] == rest[i]);
                    assert(lex_le(sorted[i].route, sorted[sorted.len() - 1].route));
                } else if i == p {
                    assert(inner[i] == record);
                } else {
                    assert(inner[i] == rest[i - 1]);
                    assert(lex_le(sorted[i - 1].route, sorted[sorted.len() - 1].route));
                }
            } else {
                lemma_lex_le_refl(last.route);
            }
        }
    }
}

/// Sorted records are ordered.
pub proof fn lemma_sorted_is_ordered(records: Seq<RouteView>)
    ensures
        ordered(sorted_by_route(records)),
    decreases records.len(),
{
    if records.len() > 0 {
        lemma_sorted_is_ordered(records.drop_last());
        lemma_insert_sorted_ordered(sorted_by_route(records.drop_last()), records.last());
    }
}

/// Sorting neither adds nor loses a record.
pub proof fn lemma_sorted_is_permutation(records: Seq<RouteView>)
    ensures
        sorted_by_route(records).to_multiset() == records.to_multiset(),
        sorted_by_route(records).len() == records.len(),
    decreases records.len(),
{
    if records.len() > 0 {
        let rest = records.drop_last();
        lemma_sorted_is_permutation(rest);
        let p = lemma_insert_sorted_inserts(sorted_by_route(rest), records.last());
        vstd::seq_lib::to_multiset_insert(sorted_by_route(rest), p, records.last());
        vstd::seq_lib::to_multiset_build(rest, records.last());
        assert(rest.push(records.last()) =~= records);
    }
}

/// Selecting records never makes two of them share a route.
pub proof fn lemma_filter_keeps_distinct(all: Seq<RouteView>, keep: spec_fn(RouteView) -> bool)
    requires
        distinct_routes(all),
    ensures
        distinct_routes(all.filter(keep)),
    decreases all.len(),
{
    reveal(Seq::filter);
    if all.len() > 0 {
        let rest = all.drop_last();
        let last = all.last();
        assert forall|i: int, j: int| 0 <= i < j < rest.len() implies (#[trigger] rest[i]).route != (
        #[trigger] rest[j]).route by {
            assert(rest[i] == all[i]);
            assert(rest[j] == all[j]);
        }
        lemma_filter_keeps_distinct(rest, keep);
        if keep(last) {
            let chosen = rest.filter(keep);
            let result = all.filter(keep);
            assert(result == chosen.push(last));
            assert forall|i: int, j: int| 0 <= i < j < result.len() implies (
            #[trigger] result[i]).route != (#[trigger] result[j]).route by {
                if j < chosen.len() {
                    assert(chosen[i].route != chosen[j].route);
                } else {
                    assert(chosen.contains(chosen[i]));
                    rest.lemma_filter_contains_rev(keep, chosen[i]);
                    let m = choose|m: int| 0 <= m < rest.len() && rest[m] == chosen[i];
                    assert(all[m] == rest[m]);
                    assert(all[m].route != all[all.len() - 1].route);
                }
            }
        }
    }
}

/// Sorting never makes two records share a route, and every sorted record
/// is one of the given ones.
pub proof fn lemma_sort_keeps_distinct(records: Seq<RouteView>)
    requires
        distinct_routes(records),
    ensures
        distinct_routes(sorted_by_route(records)),
        forall|k: int|
            0 <= k < sorted_by_route(records).len() ==> records.contains(
                #[trigger] sorted_by_route(records)[k],
            ),
    decreases records.len(),
{
    if records.len() > 0 {
        let rest = records.drop_last();
        let last = records.last();
        assert forall|i: int, j: int| 0 <= i < j < rest.len() implies (#[trigger] rest[i]).route != (
        #[trigger] rest[j]).route by {
            assert(rest[i] == records[i]);
            assert(rest[j] == records[j]);
        }
        lemma_sort_keeps_distinct(rest);
        let inner = sorted_by_route(rest);
        let result = sorted_by_route(records);
        let p = lemma_insert_sorted_inserts(inner, last);
        assert forall|k: int| 0 <= k < inner.len() implies records.contains(#[trigger] inner[k])
            && inner[k].route != last.route by {
            assert(rest.contains(inner[k]));
            let m = choose|m: int| 0 <= m < rest.len() && rest[m] == inner[k];
            assert(records[m] == rest[m]);
            assert(records[m].route != records[records.len() - 1].route);
        }
        assert(records[records.len() - 1] == last);
        assert forall|k: int| 0 <= k < result.len() implies records.contains(
            #[trigger] result[k],
        ) by {
            if k < p {
                assert(result[k] == inner[k]);
            } else if k > p {
                assert(result[k] == inner[k - 1]);
            }
        }
        assert forall|i: int, j: int| 0 <= i < j < result.len() implies (#[trigger] result[i]).route
            != (#[trigger] result[j]).route by {
            if i < p && j < p {
                assert(inner[i].route != inner[j].route);
            } else if i < p && j > p {
                assert(inner[i].route != inner[j - 1].route);
            } else if i > p {
                assert(inner[i - 1].route != inner[j - 1].route);
            } else if i == p {
                assert(result[j] == inner[j - 1]);
            } else {
                assert(result[i] == inner[i]);
            }
        }
    }
}

/// With one record per route in the scan, every output has one record per
/// route.
pub proof fn lemma_output_routes_distinct(
    config: ConfigView,
    destination: DestinationView,
    all: Seq<RouteView>,
)
    requires
        distinct_routes(all),
    ensures
        distinct_routes(output_for(config, destination, all)),
{
    lemma_filter_keeps_distinct(all, member_filter(config, destination));
    lemma_sort_keeps_distinct(all.filter(member_filter(config, destination)));
}

/// Every record handed to a destination comes from the scan and belongs to
/// the destination.
pub proof fn lemma_output_members(
    config: ConfigView,
    destination: DestinationView,
    all: Seq<RouteView>,
    k: int,
)
    requires
        0 <= k < output_for(config, destination, all).len(),
    ensures
        all.contains(output_for(config, destination, all)[k]),
        belongs(config, destination, output_for(config, destination, all)[k].route),
{
    let chosen = all.filter(member_filter(config, destination));
    let out = output_for(config, destination, all);
    lemma_sorted_is_permutation(chosen);
    vstd::seq_lib::to_multiset_contains(out, out[k]);
    vstd::seq_lib::to_multiset_contains(chosen, out[k]);
    assert(out.contains(out[k]));
    assert(chosen.contains(out[k]));
    let m = choose|m: int| 0 <= m < chosen.len() && chosen[m] == out[k];
    all.lemma_filter_pred(member_filter(config, destination), m);
    all.lemma_filter_contains_rev(member_filter(config, destination), out[k]);
}

/// Every scanned record whose route belongs to a destination is handed to it.
pub proof fn lemma_output_complete(
    config: ConfigView,
    destination: DestinationView,
    all: Seq<RouteView>,
    i: int,
)
    requires
        0 <= i < all.len(),
        belongs(config, destination, all[i].route),
    ensures
        output_for(config, destination, all).contains(all[i]),
{
    let chosen = all.filter(member_filter(config, destination));
    let out = output_for(config, destination, all);
    all.lemma_filter_contains(member_filter(config, destination), i);
    lemma_sorted_is_permutation(chosen);
    vstd::seq_lib::to_multiset_contains(out, all[i]);
    vstd::seq_lib::to_multiset_contains(chosen, all[i]);
}

/// A route that belongs to a custom sitemap which keeps its routes out of
/// the main JSON index is on no record of that index, whatever the other
/// sitemaps say.
pub proof fn lemma_vetoed_route_not_in_main_json(
    config: ConfigView,
    all: Seq<RouteView>,
    i: int,
    k: int,
)
    requires
        0 <= i < config.custom_sitemaps.len(),
        !config.custom_sitemaps[i].1.include_in_main_json,
        0 <= k < output_for(config, DestinationView::MainJson, all).len(),
    ensures
        !config.custom_sitemaps[i].1.routes.matches(
            output_for(config, DestinationView::MainJson, all)[k].route,
        ),
{
    lemma_output_members(config, DestinationView::MainJson, all, k);
}

/// The same for the XML sitemap.
pub proof fn lemma_vetoed_route_not_in_main_xml(
    config: ConfigView,
    all: Seq<RouteView>,
    i: int,
    k: int,
)
    requires
        0 <= i < config.custom_sitemaps.len(),
        !config.custom_sitemaps[i].1.include_in_main_xml,
        0 <= k < output_for(config, DestinationView::MainXml, all).len(),
    ensures
        !config.custom_sitemaps[i].1.routes.matches(
            output_for(config, DestinationView::MainXml, all)[k].route,
        ),
{
    lemma_output_members(config, DestinationView::MainXml, all, k);
}

/// Sorts records by route, ascending; records with equal routes keep their
/// order.
pub fn sort_by_route(records: &Vec<RouteInfo>) -> (out: Vec<RouteInfo>)
    ensures
        views(out@) == sorted_by_route(views(records@)),
        ordered(views(out@)),
        views(out@).to_multiset() == views(records@).to_multiset(),
{
    let mut out: Vec<RouteInfo> = Vec::new();
    let mut keys: Vec<Vec<char>> = Vec::new();
    let mut i: usize = 0;
    let ghost input = views(records@);
    assert(input.take(0) =~= Seq::<RouteView>::empty());
    assert(views(out@) =~= Seq::<RouteView>::empty());
    while i < records.len()
        invariant
            i <= records.len(),
            input == views(records@),
            views(out@) == sorted_by_route(input.take(i as int)),
            keys.len() == out.len(),
            forall|j: int| 0 <= j < keys.len() ==> (#[trigger] keys@[j])@ == out@[j].route@,
        decreases records.len() - i,
    {
        let record = records[i].duplicate();
        let key = chars_of(record.route.as_str());
        let mut p: usize = out.len();
        while p > 0 && !chars_le(&keys[p - 1], &key)
            invariant
                p <= out.len(),
                keys.len() == out.len(),
                key@ == record@.route,
                forall|j: int| 0 <= j < keys.len() ==> (#[trigger] keys@[j])@ == out@[j].route@,
                forall|j: int|
                    p <= j < out.len() ==> !lex_le((#[trigger] views(out@)[j]).route, key@),
            decreases p,
        {
            p -= 1;
        }
        proof {
            assert(input.take(i + 1).drop_last() =~= input.take(i as int));
            assert(input.take(i + 1).last() == record@);
            if p > 0 {
                assert(keys@[p - 1]@ == out@[p - 1].route@);
                assert(views(out@)[p - 1].route == out@[p - 1].route@);
            }
            lemma_insert_position(views(out@), record@, p as int);
        }
        let ghost before = views(out@);
        let ghost keys_before = keys@;
        let ghost out_before = out@;
        out.insert(p, record);
        keys.insert(p, key);
        proof {
            assert(views(out@) =~= before.insert(p as int, record@));
            assert forall|j: int| 0 <= j < keys.len() implies (#[trigger] keys@[j])@
                == out@[j].route@ by {
                if j < p {
                    assert(keys@[j] == keys_before[j]);
                    assert(out@[j] == out_before[j]);
                } else if j > p {
                    assert(keys@[j] == keys_before[j - 1]);
                    assert(out@[j] == out_before[j - 1]);
                }
            }
        }
        i += 1;
    }
    proof {
        assert(input.take(records.len() as int) =~= input);
        lemma_sorted_is_ordered(input);
        lemma_sorted_is_permutation(input);
    }
    out
}

impl Config {
    /// Whether the route belongs to the destination.
    pub fn admits(&self, destination: &Destination, route: &str) -> (r: bool)
        ensures
            r == belongs(self@, destination@, route@),
    {
        match destination {
            Destination::MainJson => self.include_in_main_json(route),
            Destination::MainXml => self.include_in_main_xml(route),
            Destination::Custom(name) => self.in_custom_sitemap(name.as_str(), route),
        }
    }
}

/// The records for one destination: those whose routes belong to it,
/// sorted by route.
pub fn routes_for(config: &Config, destination: &Destination, all: &Vec<RouteInfo>) -> (out: Vec<
    RouteInfo,
>)
    ensures
        views(out@) == output_for(config@, destination@, views(all@)),
{
    let mut chosen: Vec<RouteInfo> = Vec::new();
    let mut i: usize = 0;
    let ghost keep = member_filter(config@, destination@);
    let ghost input = views(all@);
    assert(input.take(0) =~= Seq::<RouteView>::empty());
    assert(Seq::<RouteView>::empty().filter(keep) =~= Seq::<RouteView>::empty()) by {
        reveal(Seq::filter);
    }
    assert(views(chosen@) =~= Seq::<RouteView>::empty());
    while i < all.len()
        invariant
            i <= all.len(),
            input == views(all@),
            keep == member_filter(config@, destination@),
            views(chosen@) == input.take(i as int).filter(keep),
        decreases all.len() - i,
    {
        let record = &all[i];
        proof {
            input.take(i as int).lemma_filter_push(record@, keep);
            assert(input.take(i + 1) =~= input.take(i as int).push(record@));
        }
        if config.admits(destination, record.route.as_str()) {
            let ghost before = views(chosen@);
            chosen.push(record.duplicate());
            assert(views(chosen@) =~= before.push(record@));
        }
        i += 1;
    }
    assert(input.take(all.len() as int) =~= input);
    sort_by_route(&chosen)
}

/// Partitions the scanned records over the outputs of a run: the main JSON
/// index, the XML sitemap, and each custom sitemap that has any record.
pub fn assemble(config: &Config, all: &Vec<RouteInfo>) -> (plan: Plan)
    ensures
        views(plan.main_json@) == output_for(config@, DestinationView::MainJson, views(all@)),
        views(plan.main_xml@) == output_for(config@, DestinationView::MainXml, views(all@)),
        output_views(plan.custom@) == custom_outputs(
            config@,
            config@.custom_sitemaps,
            views(all@),
        ),
        config@.wf() ==> output_names(output_views(plan.custom@)).no_duplicates(),
{
    let main_json = routes_for(config, &Destination::MainJson, all);
    let main_xml = routes_for(config, &Destination::MainXml, all);
    let mut custom: Vec<CustomOutput> = Vec::new();
    let mut i: usize = 0;
    let ghost sitemaps = config@.custom_sitemaps;
    assert(sitemaps.take(0) =~= Seq::<(Seq<char>, SitemapView)>::empty());
    assert(output_views(custom@) =~= Seq::<CustomOutputView>::empty());
    while i < config.custom_sitemaps.len()
        invariant
            i <= config.custom_sitemaps.len(),
            sitemaps == config@.custom_sitemaps,
            output_views(custom@) == custom_outputs(config@, sitemaps.take(i as int), views(all@)),
        decreases config.custom_sitemaps.len() - i,
    {
        let entry = &config.custom_sitemaps[i];
        proof {
            assert(sitemaps.take(i + 1).drop_last() =~= sitemaps.take(i as int));
            assert(sitemaps.take(i + 1).last() == (entry.0@, entry.1@));
        }
        let destination = Destination::Custom(entry.0.clone());
        let routes = routes_for(config, &destination, all);
        if routes.len() > 0 {
            let ghost before = output_views(custom@);
            let output = CustomOutput {
                name: entry.0.clone(),
                output: entry.1.output.clone(),
                routes,
            };
            custom.push(output);
            assert(output_views(custom@) =~= before.push(output@));
        }
        i += 1;
    }
    proof {
        assert(sitemaps.take(config.custom_sitemaps.len() as int) =~= sitemaps);
        if config@.wf() {
            lemma_custom_outputs_distinct(config@, sitemaps, views(all@));
        }
    }
    Plan { main_json, main_xml, custom }
}

} // verus!
