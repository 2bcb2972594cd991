//! The configuration and its rule matcher.
//!
//! Two categories of rules classify a route. Exclusion rules take a route out
//! of the main outputs. The rules of a custom sitemap put a route into that
//! sitemap, and the sitemap's flags say whether such a route may also stay in
//! the main outputs.

use crate::text::{chars_of, same_chars, starts_with, strs};
use vstd::prelude::*;

verus! {

/// What searching `haystack` with the regular expression `pattern` gives:
/// `None` when the pattern does not compile, otherwise whether it matches
/// somewhere in the haystack.
pub uninterp spec fn regex_search(pattern: Seq<char>, haystack: Seq<char>) -> Option<bool>;

/// Compiles `pattern` and searches `haystack` with it.
///
/// Trusted: the body calls `regex::Regex::new` and, when that succeeds,
/// `regex::Regex::is_match`. Both depend on their arguments alone; the
/// contract only gives the combined outcome the name `regex_search`.
#[verifier::external_body]
fn search(pattern: &str, haystack: &str) -> (r: Option<bool>)
    ensures
        r == regex_search(pattern@, haystack@),
{
    match regex::Regex::new(pattern) {
        Ok(compiled) => Some(compiled.is_match(haystack)),
        Err(_) => None,
    }
}

/// Category-1 rules: a route that matches leaves every main output.
#[derive(Clone, Debug, PartialEq, Eq)]
pub struct ExcludedRoutes {
    /// Routes matched as they stand.
    pub exact: Vec<String>,
    /// Routes matched together with everything below them.
    pub children: Vec<String>,
    /// Regular expressions searched for in the route.
    pub patterns: Vec<String>,
}

/// Category-2 rules: a route that matches joins the custom sitemap.
#[derive(Clone, Debug, PartialEq, Eq)]
pub struct CustomRoutes {
    /// Routes matched as they stand.
    pub exact: Vec<String>,
    /// Routes matched together with everything below them.
    pub children: Vec<String>,
    /// Regular expressions searched for in the route.
    pub patterns: Vec<String>,
}

/// A named auxiliary output.
#[derive(Clone, Debug, PartialEq, Eq)]
pub struct CustomSitemap {
    /// Where the sitemap is written.
    pub output: String,
    /// Whether its routes may stay in the main JSON output.
    pub include_in_main_json: bool,
    /// Whether its routes may stay in the main XML output.
    pub include_in_main_xml: bool,
    /// Which routes belong to it.
    pub routes: CustomRoutes,
}

/// The resolved configuration of one run.
#[derive(Clone, Debug, PartialEq, Eq)]
pub struct Config {
    /// The project root.
    pub project: String,
    /// Where the XML sitemap is written.
    pub xml_output: String,
    /// Where the main JSON index is written.
    pub json_output: String,
    /// The base URL of the site.
    pub base_url: String,
    /// The exclusion rules.
    pub excluded_routes: ExcludedRoutes,
    /// The custom sitemaps by name; no name occurs twice.
    pub custom_sitemaps: Vec<(String, CustomSitemap)>,
}

/// The three rule lists of either category.
pub ghost struct RuleSet {
    pub exact: Seq<Seq<char>>,
    pub children: Seq<Seq<char>>,
    pub patterns: Seq<Seq<char>>,
}

/// The mathematical content of a `CustomSitemap`.
pub ghost struct SitemapView {
    pub output: Seq<char>,
    pub include_in_main_json: bool,
    pub include_in_main_xml: bool,
    pub routes: RuleSet,
}

/// The mathematical content of a `Config`.
pub ghost struct ConfigView {
    pub project: Seq<char>,
    pub xml_output: Seq<char>,
    pub json_output: Seq<char>,
    pub base_url: Seq<char>,
    pub excluded_routes: RuleSet,
    pub custom_sitemaps: Seq<(Seq<char>, SitemapView)>,
}

impl View for ExcludedRoutes {
    type V = RuleSet;

    open spec fn view(&self) -> RuleSet {
        RuleSet {
            exact: strs(self.exact@),
            children: strs(self.children@),
            patterns: strs(self.patterns@),
        }
    }
}

impl View for CustomRoutes {
    type V = RuleSet;

    open spec fn view(&self) -> RuleSet {
        RuleSet {
            exact: strs(self.exact@),
            children: strs(self.children@),
            patterns: strs(self.patterns@),
        }
    }
}

impl View for CustomSitemap {
    type V = SitemapView;

    open spec fn view(&self) -> SitemapView {
        SitemapView {
            output: self.output@,
            include_in_main_json: self.include_in_main_json,
            include_in_main_xml: self.include_in_main_xml,
            routes: self.routes@,
        }
    }
}

/// The views of the named sitemaps.
pub open spec fn sitemap_views(sitemaps: Seq<(String, CustomSitemap)>) -> Seq<
    (Seq<char>, SitemapView),
> {
    sitemaps.map_values(|entry: (String, CustomSitemap)| (entry.0@, entry.1@))
}

impl View for Config {
    type V = ConfigView;

    open spec fn view(&self) -> ConfigView {
        ConfigView {
            project: self.project@,
            xml_output: self.xml_output@,
            json_output: self.json_output@,
            base_url: self.base_url@,
            excluded_routes: self.excluded_routes@,
            custom_sitemaps: sitemap_views(self.custom_sitemaps@),
        }
    }
}

/// What a search outcome means for a rule: only a pattern that compiled and
/// matched counts.
pub open spec fn is_hit(outcome: Option<bool>) -> bool {
    outcome == Some(true)
}

/// The pattern compiles and matches somewhere in the route.
pub open spec fn pattern_matches(pattern: Seq<char>, route: Seq<char>) -> bool {
    is_hit(regex_search(pattern, route))
}

/// The route is `parent` itself or lies below it.
pub open spec fn covers(parent: Seq<char>, route: Seq<char>) -> bool {
    route == parent || (parent + seq!['/']).is_prefix_of(route)
}

impl RuleSet {
    /// The rule set without rules.
    pub open spec fn empty() -> RuleSet {
        RuleSet {
            exact: Seq::<Seq<char>>::empty(),
            children: Seq::<Seq<char>>::empty(),
            patterns: Seq::<Seq<char>>::empty(),
        }
    }

    /// Some child rule covers the route.
    pub open spec fn covered(self, route: Seq<char>) -> bool {
        exists|i: int| 0 <= i < self.children.len() && covers(#[trigger] self.children[i], route)
    }

    /// Some pattern matches the route.
    pub open spec fn searched(self, route: Seq<char>) -> bool {
        exists|i: int|
            0 <= i < self.patterns.len() && pattern_matches(#[trigger] self.patterns[i], route)
    }

    /// Some rule of the set matches the route.
    pub open spec fn matches(self, route: Seq<char>) -> bool {
        self.exact.contains(route) || self.covered(route) || self.searched(route)
    }
}

/// The names of the sitemaps whose rules match the route, in the order of
/// the configuration.
pub open spec fn matching_names(sitemaps: Seq<(Seq<char>, SitemapView)>, route: Seq<char>) -> Seq<
    Seq<char>,
>
    decreases sitemaps.len(),
{
    if sitemaps.len() == 0 {
        Seq::<Seq<char>>::empty()
    } else if sitemaps.last().1.routes.matches(route) {
        matching_names(sitemaps.drop_last(), route).push(sitemaps.last().0)
    } else {
        matching_names(sitemaps.drop_last(), route)
    }
}

impl ConfigView {
    /// No sitemap name occurs twice.
    pub open spec fn wf(self) -> bool {
        forall|i: int, j: int|
            0 <= i < j < self.custom_sitemaps.len() ==> (#[trigger] self.custom_sitemaps[i]).0 != (
            #[trigger] self.custom_sitemaps[j]).0
    }

    /// An exclusion rule matches the route.
    pub open spec fn excluded(self, route: Seq<char>) -> bool {
        self.excluded_routes.matches(route)
    }

    /// The route belongs to the custom sitemap called `name`.
    pub open spec fn in_custom(self, name: Seq<char>, route: Seq<char>) -> bool {
        exists|i: int|
            0 <= i < self.custom_sitemaps.len() && (#[trigger] self.custom_sitemaps[i]).0 == name
                && self.custom_sitemaps[i].1.routes.matches(route)
    }

    /// The route belongs to the main JSON output: no exclusion rule matches
    /// it, and every custom sitemap that it belongs to lets it stay.
    pub open spec fn in_main_json(self, route: Seq<char>) -> bool {
        &&& !self.excluded(route)
        &&& forall|i: int|
            0 <= i < self.custom_sitemaps.len() && (#[trigger] self.custom_sitemaps[i]).1.routes.matches(
                route,
            ) ==> self.custom_sitemaps[i].1.include_in_main_json
    }

    /// The route belongs to the main XML output: no exclusion rule matches
    /// it, and every custom sitemap that it belongs to lets it stay.
    pub open spec fn in_main_xml(self, route: Seq<char>) -> bool {
        &&& !self.excluded(route)
        &&& forall|i: int|
            0 <= i < self.custom_sitemaps.len() && (#[trigger] self.custom_sitemaps[i]).1.routes.matches(
                route,
            ) ==> self.custom_sitemaps[i].1.include_in_main_xml
    }
}

/// The default project root.
pub fn default_project_path() -> (r: String)
    ensures
        r@ == "."@,
{
    ".".to_owned()
}

/// The default path of the XML sitemap.
pub fn default_xml_output() -> (r: String)
    ensures
        r@ == "sitemap.xml"@,
{
    "sitemap.xml".to_owned()
}

/// The default path of the main JSON index.
pub fn default_json_output() -> (r: String)
    ensures
        r@ == "sitemap.json"@,
{
    "sitemap.json".to_owned()
}

/// The default base URL.
pub fn default_base_url() -> (r: String)
    ensures
        r@ == "https://example.com"@,
{
    "https://example.com".to_owned()
}

impl Default for ExcludedRoutes {
    fn default() -> (r: Self)
        ensures
            r@ == RuleSet::empty(),
    {
        let r = ExcludedRoutes { exact: Vec::new(), children: Vec::new(), patterns: Vec::new() };
        assert(r@.exact =~= RuleSet::empty().exact);
        assert(r@.children =~= RuleSet::empty().children);
        assert(r@.patterns =~= RuleSet::empty().patterns);
        r
    }
}

impl Default for CustomRoutes {
    fn default() -> (r: Self)
        ensures
            r@ == RuleSet::empty(),
    {
        let r = CustomRoutes { exact: Vec::new(), children: Vec::new(), patterns: Vec::new() };
        assert(r@.exact =~= RuleSet::empty().exact);
        assert(r@.children =~= RuleSet::empty().children);
        assert(r@.patterns =~= RuleSet::empty().patterns);
        r
    }
}

impl Default for CustomSitemap {
    fn default() -> (r: Self)
        ensures
            r@ == (SitemapView {
                output: "custom_sitemap.json"@,
                include_in_main_json: false,
                include_in_main_xml: false,
                routes: RuleSet::empty(),
            }),
    {
        CustomSitemap {
            output: "custom_sitemap.json".to_owned(),
            include_in_main_json: false,
            include_in_main_xml: false,
            routes: CustomRoutes::default(),
        }
    }
}

impl Default for Config {
    fn default() -> (r: Self)
        ensures
            r@ == (ConfigView {
                project: "."@,
                xml_output: "sitemap.xml"@,
                json_output: "sitemap.json"@,
                base_url: "https://example.com"@,
                excluded_routes: RuleSet::empty(),
                custom_sitemaps: Seq::<(Seq<char>, SitemapView)>::empty(),
            }),
            r@.wf(),
    {
        let r = Config {
            project: default_project_path(),
            xml_output: default_xml_output(),
            json_output: default_json_output(),
            base_url: default_base_url(),
            excluded_routes: ExcludedRoutes::default(),
            custom_sitemaps: Vec::new(),
        };
        assert(r@.custom_sitemaps =~= Seq::<(Seq<char>, SitemapView)>::empty());
        r
    }
}

/// Reads a search outcome: a pattern that did not compile matches nothing.
pub fn pattern_hit(outcome: Option<bool>) -> (r: bool)
    ensures
        r == is_hit(outcome),
{
    match outcome {
        Some(found) => found,
        None => false,
    }
}

/// Whether the route is one of the listed texts.
fn listed(list: &Vec<String>, route: &Vec<char>) -> (r: bool)
    ensures
        r == strs(list@).contains(route@),
{
    let mut i: usize = 0;
    while i < list.len()
        invariant
            i <= list.len(),
            forall|j: int| 0 <= j < i ==> strs(list@)[j] != route@,
        decreases list.len() - i,
    {
        if same_chars(&chars_of(list[i].as_str()), route) {
            assert(strs(list@)[i as int] == route@);
            return true;
        }
        i += 1;
    }
    false
}

/// Whether the route is `parent` or lies below it.
fn is_covered(parent: &str, route: &Vec<char>) -> (r: bool)
    ensures
        r == covers(parent@, route@),
{
    let mut prefix = chars_of(parent);
    if same_chars(&prefix, route) {
        return true;
    }
    prefix.push('/');
    assert(prefix@ =~= parent@ + seq!['/']);
    starts_with(route, &prefix)
}

/// Whether some rule of the three lists matches the route.
fn rules_match(exact: &Vec<String>, children: &Vec<String>, patterns: &Vec<String>, route: &str) -> (r:
    bool)
    ensures
        r == (RuleSet {
            exact: strs(exact@),
            children: strs(children@),
            patterns: strs(patterns@),
        }).matches(route@),
{
    let ghost rules = RuleSet {
        exact: strs(exact@),
        children: strs(children@),
        patterns: strs(patterns@),
    };
    let chars = chars_of(route);
    if listed(exact, &chars) {
        return true;
    }
    let mut i: usize = 0;
    while i < children.len()
        invariant
            i <= children.len(),
            chars@ == route@,
            rules == (RuleSet {
                exact: strs(exact@),
                children: strs(children@),
                patterns: strs(patterns@),
            }),
            forall|j: int| 0 <= j < i ==> !covers(#[trigger] rules.children[j], route@),
        decreases children.len() - i,
    {
        if is_covered(children[i].as_str(), &chars) {
            assert(covers(rules.children[i as int], route@));
            return true;
        }
        i += 1;
    }
    let mut k: usize = 0;
    while k < patterns.len()
        invariant
            k <= patterns.len(),
            rules == (RuleSet {
                exact: strs(exact@),
                children: strs(children@),
                patterns: strs(patterns@),
            }),
            forall|j: int| 0 <= j < k ==> !pattern_matches(#[trigger] rules.patterns[j], route@),
        decreases patterns.len() - k,
    {
        if pattern_hit(search(patterns[k].as_str(), route)) {
            assert(pattern_matches(rules.patterns[k as int], route@));
            return true;
        }
        k += 1;
    }
    false
}

impl CustomSitemap {
    /// Whether the route belongs to this sitemap.
    pub fn matches(&self, route: &str) -> (r: bool)
        ensures
            r == self@.routes.matches(route@),
    {
        rules_match(&self.routes.exact, &self.routes.children, &self.routes.patterns, route)
    }
}

impl Config {
    /// Whether an exclusion rule matches the route: it equals an exact
    /// entry, equals or lies below a child entry, or is matched by a pattern.
    /// A pattern that does not compile matches nothing.
    pub fn is_excluded(&self, route: &str) -> (r: bool)
        ensures
            r == self@.excluded(route@),
    {
        rules_match(
            &self.excluded_routes.exact,
            &self.excluded_routes.children,
            &self.excluded_routes.patterns,
            route,
        )
    }

    /// The names of the custom sitemaps that the route belongs to, each once,
    /// in the order of the configuration.
    pub fn get_matching_custom_sitemaps(&self, route: &str) -> (names: Vec<String>)
        ensures
            strs(names@) == matching_names(self@.custom_sitemaps, route@),
            self@.wf() ==> strs(names@).no_duplicates(),
    {
        let mut names: Vec<String> = Vec::new();
        let mut i: usize = 0;
        let ghost all = self@.custom_sitemaps;
        assert(all.take(0) =~= Seq::<(Seq<char>, SitemapView)>::empty());
        assert(strs(names@) =~= Seq::<Seq<char>>::empty());
        while i < self.custom_sitemaps.len()
            invariant
                i <= self.custom_sitemaps.len(),
                all == self@.custom_sitemaps,
                strs(names@) == matching_names(all.take(i as int), route@),
            decreases self.custom_sitemaps.len() - i,
        {
            let entry = &self.custom_sitemaps[i];
            proof {
                assert(all.take(i + 1).drop_last() =~= all.take(i as int));
                assert(all.take(i + 1).last() == (entry.0@, entry.1@));
            }
            if entry.1.matches(route) {
                let ghost before = strs(names@);
                names.push(entry.0.clone());
                assert(strs(names@) =~= before.push(entry.0@));
            }
            i += 1;
        }
        proof {
            assert(all.take(self.custom_sitemaps.len() as int) =~= all);
            if self@.wf() {
                lemma_matching_names_distinct(self@, route@);
            }
        }
        names
    }

    /// Whether the route belongs to the custom sitemap called `name`.
    pub fn in_custom_sitemap(&self, name: &str, route: &str) -> (r: bool)
        ensures
            r == self@.in_custom(name@, route@),
    {
        let wanted = chars_of(name);
        let mut i: usize = 0;
        while i < self.custom_sitemaps.len()
            invariant
                i <= self.custom_sitemaps.len(),
                wanted@ == name@,
                forall|j: int|
                    0 <= j < i ==> !((#[trigger] self@.custom_sitemaps[j]).0 == name@
                        && self@.custom_sitemaps[j].1.routes.matches(route@)),
            decreases self.custom_sitemaps.len() - i,
        {
            let entry = &self.custom_sitemaps[i];
            assert(self@.custom_sitemaps[i as int] == (entry.0@, entry.1@));
            if same_chars(&chars_of(entry.0.as_str()), &wanted) && entry.1.matches(route) {
                return true;
            }
            i += 1;
        }
        false
    }

    /// Whether the route belongs to the main JSON output.
    pub fn include_in_main_json(&self, route: &str) -> (r: bool)
        ensures
            r == self@.in_main_json(route@),
    {
        if self.is_excluded(route) {
            return false;
        }
        let mut i: usize = 0;
        while i < self.custom_sitemaps.len()
            invariant
                i <= self.custom_sitemaps.len(),
                !self@.excluded(route@),
                forall|j: int|
                    0 <= j < i && (#[trigger] self@.custom_sitemaps[j]).1.routes.matches(route@)
                        ==> self@.custom_sitemaps[j].1.include_in_main_json,
            decreases self.custom_sitemaps.len() - i,
        {
            let entry = &self.custom_sitemaps[i];
            assert(self@.custom_sitemaps[i as int] == (entry.0@, entry.1@));
            if !entry.1.include_in_main_json && entry.1.matches(route) {
                return false;
            }
            i += 1;
        }
        true
    }

    /// Whether the route belongs to the main XML output.
    pub fn include_in_main_xml(&self, route: &str) -> (r: bool)
        ensures
            r == self@.in_main_xml(route@),
    {
        if self.is_excluded(route) {
            return false;
        }
        let mut i: usize = 0;
        while i < self.custom_sitemaps.len()
            invariant
                i <= self.custom_sitemaps.len(),
                !self@.excluded(route@),
                forall|j: int|
                    0 <= j < i && (#[trigger] self@.custom_sitemaps[j]).1.routes.matches(route@)
                        ==> self@.custom_sitemaps[j].1.include_in_main_xml,
            decreases self.custom_sitemaps.len() - i,
        {
            let entry = &self.custom_sitemaps[i];
            assert(self@.custom_sitemaps[i as int] == (entry.0@, entry.1@));
            if !entry.1.include_in_main_xml && entry.1.matches(route) {
                return false;
            }
            i += 1;
        }
        true
    }
}

/// A custom sitemap that keeps its routes out of the main JSON output does
/// so whatever the other sitemaps say.
pub proof fn lemma_veto_main_json(config: ConfigView, i: int, route: Seq<char>)
    requires
        0 <= i < config.custom_sitemaps.len(),
        config.custom_sitemaps[i].1.routes.matches(route),
        !config.custom_sitemaps[i].1.include_in_main_json,
    ensures
        !config.in_main_json(route),
{
}

/// A custom sitemap that keeps its routes out of the main XML output does
/// so whatever the other sitemaps say.
pub proof fn lemma_veto_main_xml(config: ConfigView, i: int, route: Seq<char>)
    requires
        0 <= i < config.custom_sitemaps.len(),
        config.custom_sitemaps[i].1.routes.matches(route),
        !config.custom_sitemaps[i].1.include_in_main_xml,
    ensures
        !config.in_main_xml(route),
{
}

/// An excluded route is in neither main output, yet exclusion says nothing
/// about the custom sitemaps.
pub proof fn lemma_excluded_leaves_main(config: ConfigView, route: Seq<char>)
    requires
        config.excluded(route),
    ensures
        !config.in_main_json(route),
        !config.in_main_xml(route),
{
}

/// Whether a route belongs to a custom sitemap depends on the custom
/// sitemaps alone: the exclusion rules do not enter.
pub proof fn lemma_custom_membership_ignores_exclusion(
    config: ConfigView,
    other: ConfigView,
    name: Seq<char>,
    route: Seq<char>,
)
    requires
        config.custom_sitemaps == other.custom_sitemaps,
    ensures
        config.in_custom(name, route) == other.in_custom(name, route),
{
}

/// A route that no rule matches is in both main outputs.
pub proof fn lemma_unmatched_stays_in_main(config: ConfigView, route: Seq<char>)
    requires
        !config.excluded(route),
        forall|i: int|
            0 <= i < config.custom_sitemaps.len() ==> !(
            #[trigger] config.custom_sitemaps[i]).1.routes.matches(route),
    ensures
        config.in_main_json(route),
        config.in_main_xml(route),
{
}

/// The matching names are exactly the names of the sitemaps that the route
/// belongs to.
pub proof fn lemma_matching_names_sound(
    sitemaps: Seq<(Seq<char>, SitemapView)>,
    route: Seq<char>,
    name: Seq<char>,
)
    ensures
        matching_names(sitemaps, route).contains(name) <==> exists|i: int|
            0 <= i < sitemaps.len() && (#[trigger] sitemaps[i]).0 == name
                && sitemaps[i].1.routes.matches(route),
    decreases sitemaps.len(),
{
    if sitemaps.len() > 0 {
        let rest = sitemaps.drop_last();
        let last = sitemaps.last();
        lemma_matching_names_sound(rest, route, name);
        let names = matching_names(sitemaps, route);
        let before = matching_names(rest, route);
        if matching_names(sitemaps, route).contains(name) {
            let k = choose|k: int| 0 <= k < names.len() && names[k] == name;
            if last.1.routes.matches(route) && k == before.len() {
                assert(sitemaps[sitemaps.len() - 1].0 == name);
            } else {
                assert(before[k] == name);
                let i = choose|i: int|
                    0 <= i < rest.len() && (#[trigger] rest[i]).0 == name
                        && rest[i].1.routes.matches(route);
                assert(sitemaps[i] == rest[i]);
            }
        }
        if exists|i: int|
            0 <= i < sitemaps.len() && (#[trigger] sitemaps[i]).0 == name
                && sitemaps[i].1.routes.matches(route) {
            let i = choose|i: int|
                0 <= i < sitemaps.len() && (#[trigger] sitemaps[i]).0 == name
                    && sitemaps[i].1.routes.matches(route);
            if i == sitemaps.len() - 1 {
                assert(names[names.len() - 1] == name);
            } else {
                assert(rest[i] == sitemaps[i]);
                let k = choose|k: int| 0 <= k < before.len() && before[k] == name;
                assert(names[k] == name);
            }
        }
    }
}

/// With distinct sitemap names, no name is reported twice.
pub proof fn lemma_matching_names_distinct(config: ConfigView, route: Seq<char>)
    requires
        config.wf(),
    ensures
        matching_names(config.custom_sitemaps, route).no_duplicates(),
{
    lemma_names_distinct_upto(config.custom_sitemaps, route);
}

proof fn lemma_names_distinct_upto(sitemaps: Seq<(Seq<char>, SitemapView)>, route: Seq<char>)
    requires
        forall|i: int, j: int|
            0 <= i < j < sitemaps.len() ==> (#[trigger] sitemaps[i]).0 != (#[trigger] sitemaps[j]).0,
    ensures
        matching_names(sitemaps, route).no_duplicates(),
    decreases sitemaps.len(),
{
    if sitemaps.len() > 0 {
        let rest = sitemaps.drop_last();
        let last = sitemaps.last();
        assert forall|i: int, j: int| 0 <= i < j < rest.len() implies (#[trigger] rest[i]).0 != (
        #[trigger] rest[j]).0 by {
            assert(rest[i] == sitemaps[i]);
            assert(rest[j] == sitemaps[j]);
        }
        lemma_names_distinct_upto(rest, route);
        if last.1.routes.matches(route) {
            let before = matching_names(rest, route);
            assert(!before.contains(last.0)) by {
                lemma_matching_names_sound(rest, route, last.0);
                assert forall|i: int| 0 <= i < rest.len() implies (#[trigger] rest[i]).0
                    != last.0 by {
                    assert(sitemaps[i] == rest[i]);
                    assert(sitemaps[sitemaps.len() - 1] == last);
                }
            }
            assert forall|a: int, b: int|
                0 <= a < before.push(last.0).len() && 0 <= b < before.push(last.0).len() && a
                    != b implies before.push(last.0)[a] != before.push(last.0)[b] by {
                if a == before.len() {
                    assert(before[b] != last.0);
                } else if b == before.len() {
                    assert(before[a] != last.0);
                }
            }
        }
    }
}

} // verus!
