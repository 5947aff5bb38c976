//! Entity path filters: rules about which entities are part of something.
use crate::path::{
    clone_path, entity_path_parts, path_before, path_len, path_part, path_text, path_view,
    starts_with, PathView,
};
use re_log_types::{EntityPath, EntityPathSubs};
use vstd::prelude::*;

verus! {

/// `re_log_types::EntityPathFilter`: an ordered map from rules to what they do with a path.
#[verifier::external_type_specification]
#[verifier::external_body]
pub struct ExEntityPathFilter(re_log_types::EntityPathFilter);

/// `re_log_types::EntityPathSubs`: what variables in rules stand for.
#[verifier::external_type_specification]
#[verifier::external_body]
pub struct ExEntityPathSubs(re_log_types::EntityPathSubs);

/// One rule of a filter, as contracts see it.
#[verifier::ext_equal]
pub struct RuleView {
    /// How the rule was written, before variables were filled in.
    pub raw: Seq<char>,
    pub path: PathView,
    /// Whether the rule is for everything below the path as well.
    pub include_subtree: bool,
    /// Whether the rule includes; if not, it excludes.
    pub includes: bool,
}

/// One rule of a filter without anything that differs between machines.
#[verifier::ext_equal]
pub struct RuleText {
    pub raw: Seq<char>,
    pub parts: Seq<Seq<char>>,
    pub include_subtree: bool,
    pub includes: bool,
}

/// The rules of a filter in order, the least specific first.
pub uninterp spec fn filter_rules(filter: re_log_types::EntityPathFilter) -> Seq<RuleView>;

/// What each variable stands for.
pub uninterp spec fn path_subs(subs: EntityPathSubs) -> Map<Seq<char>, Seq<char>>;

/// The rules that expressions stand for, with variables filled in.
pub uninterp spec fn parsed_rules(
    expressions: Seq<Seq<char>>,
    subs: Map<Seq<char>, Seq<char>>,
) -> Seq<RuleText>;

/// The parts of the path that the expression of a rule is about once variables are filled in, and
/// whether it is about everything below the path as well.
pub uninterp spec fn parsed_rule(
    expression: Seq<char>,
    subs: Map<Seq<char>, Seq<char>>,
) -> (Seq<Seq<char>>, bool);

/// Whether no expression has a variable in it. All variables begin with a dollar sign.
pub open spec fn without_variables(expressions: Seq<Seq<char>>) -> bool {
    forall|i: int| 0 <= i < expressions.len() ==> !(#[trigger] expressions[i]).contains('$')
}

pub open spec fn rule_texts(rules: Seq<RuleView>) -> Seq<RuleText> {
    Seq::new(
        rules.len(),
        |i: int|
            RuleText {
                raw: rules[i].raw,
                parts: rules[i].path.parts,
                include_subtree: rules[i].include_subtree,
                includes: rules[i].includes,
            },
    )
}

// --- What filters mean.

/// Whether a rule is about a path.
pub open spec fn rule_matches(rule: RuleView, path: PathView) -> bool {
    if rule.include_subtree {
        starts_with(path, rule.path)
    } else {
        path.hash == rule.path.hash
    }
}

/// The last rule that is about a path, which is the most specific one.
pub open spec fn last_match(rules: Seq<RuleView>, path: PathView) -> Option<RuleView>
    decreases rules.len(),
{
    if rules.len() == 0 {
        None
    } else if rule_matches(rules.last(), path) {
        Some(rules.last())
    } else {
        last_match(rules.drop_last(), path)
    }
}

/// Whether a path is included: the most specific rule says so.
pub open spec fn included(rules: Seq<RuleView>, path: PathView) -> bool {
    match last_match(rules, path) {
        Some(rule) => rule.includes,
        None => false,
    }
}

/// Whether a rule includes this very path, and not just what is below some path.
pub open spec fn exactly_included(rules: Seq<RuleView>, path: PathView) -> bool {
    exists|i: int|
        0 <= i < rules.len() && (#[trigger] rules[i]).includes && !rules[i].include_subtree
            && rules[i].path.hash == path.hash
}

/// Whether the last rule about a path that settles the question for everything below it includes.
///
/// A rule that excludes the path alone does not settle it.
pub open spec fn subtree_not_excluded(rules: Seq<RuleView>, path: PathView) -> bool
    decreases rules.len(),
{
    if rules.len() == 0 {
        false
    } else {
        let rule = rules.last();
        if rule_matches(rule, path) && rule.includes {
            true
        } else if rule_matches(rule, path) && rule.include_subtree {
            false
        } else {
            subtree_not_excluded(rules.drop_last(), path)
        }
    }
}

/// Whether a path or anything below it may be included.
pub open spec fn anything_included(rules: Seq<RuleView>, path: PathView) -> bool {
    ||| exists|i: int|
        0 <= i < rules.len() && (#[trigger] rules[i]).includes && starts_with(rules[i].path, path)
    ||| subtree_not_excluded(rules, path)
}

/// Whether it can be seen from the rules of one filter that it lets through all that another one does.
pub open spec fn covers(rules: Seq<RuleView>, other: Seq<RuleView>) -> bool {
    &&& forall|i: int|
        0 <= i < other.len() && (#[trigger] other[i]).includes ==> match last_match(
            rules,
            other[i].path,
        ) {
            Some(rule) => rule.includes && (other[i].include_subtree ==> rule.include_subtree),
            None => false,
        }
    &&& forall|i: int|
        0 <= i < rules.len() && !(#[trigger] rules[i]).includes ==> match last_match(
            other,
            rules[i].path,
        ) {
            Some(rule) => !rule.includes,
            None => true,
        }
}

/// Whether a rule excludes a path with everything below it, while another filter excludes that path
/// alone: what is below the path may then be included by that filter, and is not by this one.
pub open spec fn excludes_more_widely(rules: Seq<RuleView>, other: Seq<RuleView>) -> bool {
    exists|i: int, j: int|
        0 <= i < rules.len() && 0 <= j < other.len() && #[trigger] more_widely(rules[i], other[j])
            && !has_wide_exclusion(other, rules[i].path.parts)
}

/// Whether both rules exclude the same path, the first one with everything below it and the second
/// one alone.
pub open spec fn more_widely(rule: RuleView, other: RuleView) -> bool {
    &&& !rule.includes && rule.include_subtree
    &&& !other.includes && !other.include_subtree
    &&& rule.path.parts == other.path.parts
}

/// Whether a rule excludes a path with everything below it.
pub open spec fn has_wide_exclusion(rules: Seq<RuleView>, parts: Seq<Seq<char>>) -> bool {
    exists|i: int| 0 <= i < rules.len() && #[trigger] is_wide_exclusion(rules[i], parts)
}

pub open spec fn is_wide_exclusion(rule: RuleView, parts: Seq<Seq<char>>) -> bool {
    !rule.includes && rule.include_subtree && rule.path.parts == parts
}

/// Whether two filters are written in the same way.
pub open spec fn same_rules(a: Seq<RuleView>, b: Seq<RuleView>) -> bool {
    a.len() == b.len() && forall|i: int|
        #![trigger a[i], b[i]]
        0 <= i < a.len() ==> a[i].raw == b[i].raw && a[i].includes == b[i].includes
}

/// How a rule is written in a query.
pub open spec fn expression(rule: RuleView) -> Seq<char> {
    (if rule.includes {
        seq!['+', ' ']
    } else {
        seq!['-', ' ']
    }) + rule.raw
}

/// How all rules are written in a query.
pub open spec fn expressions(rules: Seq<RuleView>) -> Seq<Seq<char>> {
    Seq::new(rules.len(), |i: int| expression(rules[i]))
}

/// Whether rules that are written down and read again, with variables filled in, are the same.
pub open spec fn reads_back(rules: Seq<RuleView>, subs: Map<Seq<char>, Seq<char>>) -> bool {
    parsed_rules(expressions(rules), subs) == rule_texts(rules)
}

/// Whether two rules are about the same.
pub open spec fn same_place(a: RuleView, b: RuleView) -> bool {
    a.path.parts == b.path.parts && a.include_subtree == b.include_subtree
}

/// Whether a rule comes before another: by path, and for the same path the wider one first.
pub open spec fn rule_before(a: RuleView, b: RuleView) -> bool {
    path_before(a.path.parts, b.path.parts) || (a.path.parts == b.path.parts && a.include_subtree
        && !b.include_subtree)
}

/// Whether rules are in order, the least specific first, and no two of them about the same.
pub open spec fn rules_in_order(rules: Seq<RuleView>) -> bool {
    forall|i: int, j: int|
        #![trigger rules[i], rules[j]]
        0 <= i < j < rules.len() ==> rule_before(rules[i], rules[j])
}

/// Whether a rule is about what its expression says.
pub open spec fn rule_follows(rule: RuleView, subs: Map<Seq<char>, Seq<char>>) -> bool {
    parsed_rule(rule.raw, subs) == (rule.path.parts, rule.include_subtree)
}

/// Whether rules are what others become when one is added: it takes the effect of a rule about the
/// same, or the place among them where it belongs.
pub open spec fn rule_added(before: Seq<RuleView>, rule: RuleView, after: Seq<RuleView>) -> bool {
    ||| exists|i: int|
        0 <= i < before.len() && same_place(#[trigger] before[i], rule) && after == before.update(
            i,
            RuleView { includes: rule.includes, ..before[i] },
        )
    ||| exists|i: int| #[trigger]
        is_insertion(before, rule, after, i) && forall|j: int|
            0 <= j < before.len() ==> (if j < i {
                rule_before(#[trigger] before[j], rule)
            } else {
                rule_before(rule, before[j])
            })
}

pub open spec fn is_insertion(before: Seq<RuleView>, rule: RuleView, after: Seq<RuleView>, i: int)
    -> bool {
    0 <= i <= before.len() && after == before.insert(i, rule)
}

/// The rules that are not about a path or anything below it.
pub open spec fn rules_outside(rules: Seq<RuleView>, path: PathView) -> Seq<RuleView> {
    rules.filter(|rule: RuleView| !starts_with(rule.path, path))
}

/// The rules that are not about a path itself.
pub open spec fn rules_elsewhere(rules: Seq<RuleView>, path: PathView) -> Seq<RuleView> {
    rules.filter(|rule: RuleView| rule.path.hash != path.hash)
}

/// The rule for a path and everything below it.
pub open spec fn subtree_rule(path: PathView, includes: bool) -> RuleView {
    RuleView {
        raw: path_text(path.parts) + seq!['/', '*', '*'],
        path,
        include_subtree: true,
        includes,
    }
}

// --- The filter itself.

/// A rule for a filter.
#[derive(Debug)]
pub struct EntityPathRule {
    /// How the rule was written, before variables were filled in.
    pub raw_expression: String,
    pub path: EntityPath,
    /// Whether the rule is for everything below the path as well.
    pub include_subtree: bool,
}

impl EntityPathRule {
    pub open spec fn with_effect(self, includes: bool) -> RuleView {
        RuleView {
            raw: self.raw_expression@,
            path: path_view(self.path),
            include_subtree: self.include_subtree,
            includes,
        }
    }
}

/// What a rule does with the paths that it is about.
#[derive(Clone, Copy, Debug, PartialEq, Eq, Structural)]
pub enum RuleEffect {
    Include,
    Exclude,
}

/// Another filter with the same rules.
///
/// Calls `EntityPathFilter::clone`.
#[verifier::external_body]
fn clone_filter(
    filter: &re_log_types::EntityPathFilter,
) -> (r: re_log_types::EntityPathFilter)
    ensures
        r == *filter,
{
    filter.clone()
}

/// Whether two filters are the same.
///
/// Calls `EntityPathFilter::eq`, which goes by how the rules are written and what they do.
#[verifier::external_body]
fn filters_equal(
    a: &re_log_types::EntityPathFilter,
    b: &re_log_types::EntityPathFilter,
) -> (r: bool)
    ensures
        r == same_rules(filter_rules(*a), filter_rules(*b)),
{
    a == b
}

/// Whether a path is included.
///
/// Calls `EntityPathFilter::is_included`, which goes by the last rule that matches.
#[verifier::external_body]
fn filter_includes(
    filter: &re_log_types::EntityPathFilter,
    path: &EntityPath,
) -> (r: bool)
    ensures
        r == included(filter_rules(*filter), path_view(*path)),
{
    filter.is_included(path)
}

/// Whether a rule includes this very path.
///
/// Calls `EntityPathFilter::is_exact_included`.
#[verifier::external_body]
fn filter_includes_exactly(
    filter: &re_log_types::EntityPathFilter,
    path: &EntityPath,
) -> (r: bool)
    ensures
        r == exactly_included(filter_rules(*filter), path_view(*path)),
{
    filter.is_exact_included(path)
}

/// Whether a path or anything below it may be included.
///
/// Calls `EntityPathFilter::is_anything_in_subtree_included`: some rule below the path includes, or
/// going backwards the first rule about it that settles the question does.
#[verifier::external_body]
fn filter_includes_below(
    filter: &re_log_types::EntityPathFilter,
    path: &EntityPath,
) -> (r: bool)
    ensures
        r == anything_included(filter_rules(*filter), path_view(*path)),
{
    filter.is_anything_in_subtree_included(path)
}

/// Whether one filter includes everything that another one does, as far as the rules show.
///
/// Calls `EntityPathFilter::is_superset_of`: each rule by which the other one includes falls under
/// one by which this one includes, no narrower than it, and each rule by which this one excludes
/// falls under none by which the other one includes.
#[verifier::external_body]
fn filter_covers(
    filter: &re_log_types::EntityPathFilter,
    other: &re_log_types::EntityPathFilter,
) -> (r: bool)
    ensures
        r == covers(filter_rules(*filter), filter_rules(*other)),
{
    filter.is_superset_of(other)
}

pub open spec fn string_views(strings: Seq<String>) -> Seq<Seq<char>> {
    Seq::new(strings.len(), |i: int| strings[i]@)
}

/// How the rules are written in a query.
///
/// Calls `EntityPathFilter::iter_expressions`: a sign and a space, and then the rule as it was
/// written.
#[verifier::external_body]
pub(crate) fn filter_expressions(filter: &re_log_types::EntityPathFilter) -> (r: Vec<String>)
    ensures
        string_views(r@) == expressions(filter_rules(*filter)),
{
    filter.iter_expressions().collect()
}

/// Adds a rule.
///
/// Calls `EntityPathFilter::add_rule`, which inserts into a map ordered by path, and for the same
/// path with the wider rule first. A rule about the same keeps its wording and takes on the effect.
#[verifier::external_body]
pub(crate) fn filter_add(
    filter: &mut re_log_types::EntityPathFilter,
    effect: RuleEffect,
    rule: EntityPathRule,
)
    ensures
        rule_added(
            filter_rules(*old(filter)),
            rule.with_effect(effect is Include),
            filter_rules(*final(filter)),
        ),
{
    let effect = match effect {
        RuleEffect::Include => re_log_types::path::RuleEffect::Include,
        RuleEffect::Exclude => re_log_types::path::RuleEffect::Exclude,
    };
    let rule = re_log_types::EntityPathRule {
        raw_expression: rule.raw_expression,
        path: rule.path,
        include_subtree: rule.include_subtree,
    };
    filter.add_rule(effect, rule);
}

/// Excludes a path and everything below it, whatever the rules said before.
///
/// Calls `EntityPathFilter::remove_subtree_and_matching_rules`: rules for the path and anything
/// below it go, and one is added that excludes all that.
#[verifier::external_body]
pub(crate) fn filter_remove_subtree(filter: &mut re_log_types::EntityPathFilter, path: EntityPath)
    ensures
        rule_added(
            rules_outside(filter_rules(*old(filter)), path_view(path)),
            subtree_rule(path_view(path), false),
            filter_rules(*final(filter)),
        ),
{
    filter.remove_subtree_and_matching_rules(path);
}

/// Removes all rules about a path itself.
///
/// Calls `EntityPathFilter::remove_rule_for`.
#[verifier::external_body]
pub(crate) fn filter_remove_rule(filter: &mut re_log_types::EntityPathFilter, path: &EntityPath)
    ensures
        filter_rules(*final(filter)) == rules_elsewhere(
            filter_rules(*old(filter)),
            path_view(*path),
        ),
{
    filter.remove_rule_for(path);
}

/// The filter that includes a path and everything below it.
///
/// Calls `EntityPathFilter::subtree_entity_filter`. For the root, the rule has no variables, and is
/// written in a way that is read as the same rule.
#[verifier::external_body]
fn subtree_filter(path: &EntityPath) -> (r: re_log_types::EntityPathFilter)
    ensures
        filter_rules(r) == seq![subtree_rule(path_view(*path), true)],
        entity_path_parts(*path).len() == 0 ==> forall|subs: Map<Seq<char>, Seq<char>>|
            subs.len() <= 1 ==> #[trigger] reads_back(filter_rules(r), subs),
{
    re_log_types::EntityPathFilter::subtree_entity_filter(path)
}

/// How many variables there are.
///
/// Calls `HashMap::len` on the map of an `EntityPathSubs`.
#[verifier::external_body]
fn num_subs(subs: &EntityPathSubs) -> (r: usize)
    ensures
        r == path_subs(*subs).len(),
{
    subs.0.len()
}

/// Reads the expression of a rule.
///
/// Calls `EntityPathRule::parse_forgiving`, which fills in variables, takes a trailing `/**` for
/// everything below the path, and reads the rest as a path. What variables stand for makes no
/// difference to an expression without any. What it makes of more than one variable depends on the
/// order in which a hash map is walked, and nothing is said of that.
#[verifier::external_body]
fn parse_rule(expression: &str, subs: &EntityPathSubs) -> (r: (EntityPath, bool))
    ensures
        path_subs(*subs).len() <= 1 ==> (entity_path_parts(r.0), r.1) == parsed_rule(
            expression@,
            path_subs(*subs),
        ),
        !expression@.contains('$') ==> (entity_path_parts(r.0), r.1) == parsed_rule(
            expression@,
            Map::empty(),
        ),
{
    let rule = re_log_types::EntityPathRule::parse_forgiving(expression, subs);
    (rule.path, rule.include_subtree)
}

/// What `$origin` stands for in the rules of a view.
///
/// Calls `EntityPathSubs::new_with_origin`.
#[verifier::external_body]
pub(crate) fn origin_subs(origin: &EntityPath) -> (r: EntityPathSubs)
    ensures
        path_subs(r) == map!["origin"@ => path_text(entity_path_parts(*origin))],
{
    EntityPathSubs::new_with_origin(origin)
}

/// Reads a filter.
///
/// Calls `EntityPathFilter::from_query_expressions`. Each rule keeps the way it was written, so that
/// reading the rules again gives the same filter, and reading one of them with
/// `EntityPathRule::parse_forgiving` gives what it is about. The map of rules is ordered, and no two
/// are about the same. What variables stand for makes no difference to expressions without any. What
/// it makes of more than one variable depends on the order in which a
/// hash map is walked, and nothing is said of that.
#[verifier::external_body]
fn parse_filter(
    expressions: &Vec<String>,
    subs: &EntityPathSubs,
) -> (r: re_log_types::EntityPathFilter)
    ensures
        rules_in_order(filter_rules(r)),
        path_subs(*subs).len() <= 1 ==> rule_texts(filter_rules(r)) == parsed_rules(
            string_views(expressions@),
            path_subs(*subs),
        ),
        path_subs(*subs).len() <= 1 ==> reads_back(filter_rules(r), path_subs(*subs)),
        without_variables(string_views(expressions@)) ==> rule_texts(filter_rules(r))
            == parsed_rules(string_views(expressions@), Map::empty()) && reads_back(
            filter_rules(r),
            Map::empty(),
        ),
        path_subs(*subs).len() <= 1 ==> forall|i: int|
            0 <= i < filter_rules(r).len() ==> rule_follows(
                #[trigger] filter_rules(r)[i],
                path_subs(*subs),
            ),
        without_variables(string_views(expressions@)) ==> forall|i: int|
            0 <= i < filter_rules(r).len() ==> rule_follows(
                #[trigger] filter_rules(r)[i],
                Map::empty(),
            ) && !filter_rules(r)[i].raw.contains('$'),
{
    let expressions = expressions.iter().map(|s| s.as_str());
    re_log_types::EntityPathFilter::from_query_expressions(expressions, subs)
}

// --- Filters whose rules are known.

/// What a rule is about and what it does.
#[derive(Debug)]
pub struct SettledRule {
    pub path: EntityPath,
    /// Whether the rule is for everything below the path as well.
    pub include_subtree: bool,
    /// Whether the rule includes; if not, it excludes.
    pub includes: bool,
}

impl SettledRule {
    /// Whether this is what a rule is about and what it does.
    pub open spec fn is(self, rule: RuleView) -> bool {
        &&& entity_path_parts(self.path) == rule.path.parts
        &&& self.include_subtree == rule.include_subtree
        &&& self.includes == rule.includes
    }
}

/// Whether these are what some rules are about and what they do.
pub open spec fn are_settled(settled: Seq<SettledRule>, rules: Seq<RuleView>) -> bool {
    settled.len() == rules.len() && forall|i: int|
        0 <= i < settled.len() ==> (#[trigger] settled[i]).is(rules[i])
}

/// Whether two paths have the same parts.
fn same_parts(a: &EntityPath, b: &EntityPath) -> (r: bool)
    ensures
        r == (entity_path_parts(*a) == entity_path_parts(*b)),
{
    let len: usize = path_len(a);
    if len != path_len(b) {
        return false;
    }
    let mut i: usize = 0;
    while i < len
        invariant
            i <= len,
            len == entity_path_parts(*a).len(),
            len == entity_path_parts(*b).len(),
            forall|j: int|
                0 <= j < i ==> entity_path_parts(*a)[j] == #[trigger] entity_path_parts(*b)[j],
        decreases len - i,
    {
        if path_part(a, i) != path_part(b, i) {
            return false;
        }
        i += 1;
    }
    assert(entity_path_parts(*a) =~= entity_path_parts(*b));
    true
}

/// Whether some expression has a variable in it.
fn has_variables(expressions: &Vec<String>) -> (r: bool)
    ensures
        r == !without_variables(string_views(expressions@)),
{
    let ghost texts = string_views(expressions@);
    let mut i: usize = 0;
    while i < expressions.len()
        invariant
            i <= expressions.len(),
            texts == string_views(expressions@),
            forall|k: int| 0 <= k < i ==> !(#[trigger] texts[k]).contains('$'),
        decreases expressions.len() - i,
    {
        let text = expressions[i].as_str();
        let len: usize = text.unicode_len();
        let mut c: usize = 0;
        while c < len
            invariant
                i < expressions.len(),
                texts == string_views(expressions@),
                text@ == texts[i as int],
                c <= len,
                len == text@.len(),
                forall|k: int| 0 <= k < c ==> #[trigger] text@[k] != '$',
            decreases len - c,
        {
            if text.get_char(c) == '$' {
                assert(texts[i as int][c as int] == '$');
                return true;
            }
            c += 1;
        }
        i += 1;
    }
    false
}

/// What the rules of a filter are about, going by how they are written; nothing if that is not
/// settled, because there is more than one variable to fill in.
fn settle(
    filter: &re_log_types::EntityPathFilter,
    settled: bool,
    subs: &EntityPathSubs,
) -> (r: Option<Vec<SettledRule>>)
    requires
        settled ==> {
            ||| path_subs(*subs).len() <= 1 && forall|i: int|
                0 <= i < filter_rules(*filter).len() ==> rule_follows(
                    #[trigger] filter_rules(*filter)[i],
                    path_subs(*subs),
                )
            ||| forall|i: int|
                0 <= i < filter_rules(*filter).len() ==> rule_follows(
                    #[trigger] filter_rules(*filter)[i],
                    Map::empty(),
                ) && !filter_rules(*filter)[i].raw.contains('$')
        },
    ensures
        r is Some == settled,
        r matches Some(rules) ==> are_settled(rules@, filter_rules(*filter)),
{
    if !settled {
        return None;
    }
    let ghost rules = filter_rules(*filter);
    let written = filter_expressions(filter);
    assert(string_views(written@).len() == rules.len());
    let mut out: Vec<SettledRule> = Vec::new();
    let mut i: usize = 0;
    while i < written.len()
        invariant
            i <= written.len(),
            rules == filter_rules(*filter),
            string_views(written@) == expressions(rules),
            written@.len() == rules.len(),
            ({
                ||| path_subs(*subs).len() <= 1 && forall|i: int|
                    0 <= i < rules.len() ==> rule_follows(#[trigger] rules[i], path_subs(*subs))
                ||| forall|i: int|
                    0 <= i < rules.len() ==> rule_follows(#[trigger] rules[i], Map::empty())
                        && !rules[i].raw.contains('$')
            }),
            are_settled(out@, rules.take(i as int)),
        decreases written.len() - i,
    {
        let text = written[i].as_str();
        let ghost rule = rules[i as int];
        assert(text@ == string_views(written@)[i as int]);
        assert(text@ == expression(rule));
        let raw = text.substring_char(2, text.unicode_len());
        assert(raw@ =~= rule.raw);
        let includes = text.get_char(0) == '+';
        let (path, include_subtree) = parse_rule(raw, subs);
        assert(rule_follows(rules[i as int], path_subs(*subs)) || rule_follows(
            rules[i as int],
            Map::empty(),
        ));
        let ghost before = out@;
        out.push(SettledRule { path, include_subtree, includes });
        proof {
            let now = rules.take(i + 1);
            assert forall|k: int| 0 <= k < out@.len() implies (#[trigger] out@[k]).is(now[k]) by {
                if k < i {
                    assert(before[k].is(rules.take(i as int)[k]));
                }
            }
        }
        i += 1;
    }
    assert(rules.take(rules.len() as int) =~= rules);
    Some(out)
}

/// A filter of `re_log_types`, and what its rules are about.
///
/// If a filter was read with more than one variable, what its rules are about may not be settled.
#[derive(Debug)]
pub struct PathFilter {
    filter: re_log_types::EntityPathFilter,
    settled: Option<Vec<SettledRule>>,
}

impl View for PathFilter {
    type V = Seq<RuleView>;

    /// The rules in order, the least specific first.
    closed spec fn view(&self) -> Seq<RuleView> {
        filter_rules(self.filter)
    }
}

impl PathFilter {
    #[verifier::type_invariant]
    spec fn wf(self) -> bool {
        &&& rules_in_order(filter_rules(self.filter))
        &&& self.settled matches Some(settled) ==> are_settled(
            settled@,
            filter_rules(self.filter),
        )
    }

    /// Whether it is settled what the rules are about.
    pub closed spec fn is_settled(self) -> bool {
        self.settled is Some
    }

    /// Reads a filter. Each expression is a rule: a sign, which may be left out if the rule
    /// includes, and the path that it is about, followed by `/**` if everything below is meant too.
    pub fn from_query_expressions(expressions: &Vec<String>, subs: &EntityPathSubs) -> (r: Self)
        ensures
            path_subs(*subs).len() <= 1 ==> {
                &&& rule_texts(r@) == parsed_rules(string_views(expressions@), path_subs(*subs))
                &&& reads_back(r@, path_subs(*subs))
            },
            without_variables(string_views(expressions@)) ==> {
                &&& rule_texts(r@) == parsed_rules(string_views(expressions@), Map::empty())
                &&& reads_back(r@, Map::empty())
            },
            r.is_settled() <==> path_subs(*subs).len() <= 1 || without_variables(
                string_views(expressions@),
            ),
    {
        let filter = parse_filter(expressions, subs);
        let is_settled = num_subs(subs) <= 1 || !has_variables(expressions);
        let settled = settle(&filter, is_settled, subs);
        PathFilter { filter, settled }
    }

    /// The filter that includes a path and everything below it.
    pub fn subtree_entity_filter(path: &EntityPath) -> (r: Self)
        ensures
            r@ == seq![subtree_rule(path_view(*path), true)],
            entity_path_parts(*path).len() == 0 ==> forall|subs: Map<Seq<char>, Seq<char>>|
                subs.len() <= 1 ==> #[trigger] reads_back(r@, subs),
            r.is_settled(),
    {
        let filter = subtree_filter(path);
        let rule = SettledRule { path: clone_path(path), include_subtree: true, includes: true };
        PathFilter { filter, settled: Some(vec![rule]) }
    }

    /// A filter of `re_log_types` with the same rules, which can be changed.
    pub(crate) fn to_rules(&self) -> (r: re_log_types::EntityPathFilter)
        ensures
            filter_rules(r) == self@,
    {
        clone_filter(&self.filter)
    }

    /// Whether another filter has the same rules.
    pub(crate) fn has_rules(&self, filter: &re_log_types::EntityPathFilter) -> (r: bool)
        ensures
            r == same_rules(self@, filter_rules(*filter)),
    {
        filters_equal(&self.filter, filter)
    }

    /// Whether both filters are written in the same way.
    pub fn is(&self, other: &PathFilter) -> (r: bool)
        ensures
            r == same_rules(self@, other@),
    {
        filters_equal(&self.filter, &other.filter)
    }

    /// Whether a path is included.
    pub fn is_included(&self, path: &EntityPath) -> (r: bool)
        ensures
            r == included(self@, path_view(*path)),
    {
        filter_includes(&self.filter, path)
    }

    /// Whether a rule includes this very path.
    pub fn is_exact_included(&self, path: &EntityPath) -> (r: bool)
        ensures
            r == exactly_included(self@, path_view(*path)),
    {
        filter_includes_exactly(&self.filter, path)
    }

    /// Whether a path or anything below it may be included.
    pub fn is_anything_in_subtree_included(&self, path: &EntityPath) -> (r: bool)
        ensures
            r == anything_included(self@, path_view(*path)),
    {
        filter_includes_below(&self.filter, path)
    }

    /// How the rules are written in a query.
    pub fn to_expressions(&self) -> (r: Vec<String>)
        ensures
            string_views(r@) == expressions(self@),
    {
        filter_expressions(&self.filter)
    }

    /// Whether this filter includes everything that another one does, as far as the rules show.
    ///
    /// This may be too careful, but is never wrong where it says so. It says nothing of filters of
    /// which it is not settled what their rules are about.
    pub fn is_superset_of(&self, other: &PathFilter) -> (r: bool)
        ensures
            r == (self.is_settled() && other.is_settled() && covers(self@, other@)
                && !excludes_more_widely(self@, other@)),
            rules_in_order(self@),
            rules_in_order(other@),
    {
        proof {
            use_type_invariant(self);
            use_type_invariant(other);
        }
        if !filter_covers(&self.filter, &other.filter) {
            return false;
        }
        match (&self.settled, &other.settled) {
            (Some(rules), Some(others)) => !excludes_wider(
                rules,
                others,
                Ghost(self@),
                Ghost(other@),
            ),
            _ => false,
        }
    }
}

/// Whether a rule excludes a path with everything below it.
fn excludes_widely(
    rules: &Vec<SettledRule>,
    path: &EntityPath,
    Ghost(views): Ghost<Seq<RuleView>>,
) -> (r: bool)
    requires
        are_settled(rules@, views),
    ensures
        r == has_wide_exclusion(views, entity_path_parts(*path)),
{
    let mut i: usize = 0;
    while i < rules.len()
        invariant
            i <= rules.len(),
            are_settled(rules@, views),
            forall|k: int|
                0 <= k < i ==> !#[trigger] is_wide_exclusion(views[k], entity_path_parts(*path)),
        decreases rules.len() - i,
    {
        let rule = &rules[i];
        assert(rules@[i as int].is(views[i as int]));
        if !rule.includes && rule.include_subtree && same_parts(&rule.path, path) {
            assert(is_wide_exclusion(views[i as int], entity_path_parts(*path)));
            return true;
        }
        i += 1;
    }
    false
}

/// Whether a rule excludes a path alone.
fn excludes_alone(
    rules: &Vec<SettledRule>,
    path: &EntityPath,
    Ghost(views): Ghost<Seq<RuleView>>,
    Ghost(wide): Ghost<RuleView>,
) -> (r: bool)
    requires
        are_settled(rules@, views),
        is_wide_exclusion(wide, entity_path_parts(*path)),
    ensures
        r == exists|j: int| 0 <= j < views.len() && #[trigger] more_widely(wide, views[j]),
{
    let mut i: usize = 0;
    while i < rules.len()
        invariant
            i <= rules.len(),
            are_settled(rules@, views),
            is_wide_exclusion(wide, entity_path_parts(*path)),
            forall|k: int| 0 <= k < i ==> !#[trigger] more_widely(wide, views[k]),
        decreases rules.len() - i,
    {
        let rule = &rules[i];
        assert(rules@[i as int].is(views[i as int]));
        if !rule.includes && !rule.include_subtree && same_parts(&rule.path, path) {
            assert(more_widely(wide, views[i as int]));
            return true;
        }
        i += 1;
    }
    false
}

/// Whether a rule excludes a path with everything below it, while other rules exclude it alone.
fn excludes_wider(
    rules: &Vec<SettledRule>,
    others: &Vec<SettledRule>,
    Ghost(views): Ghost<Seq<RuleView>>,
    Ghost(other_views): Ghost<Seq<RuleView>>,
) -> (r: bool)
    requires
        are_settled(rules@, views),
        are_settled(others@, other_views),
    ensures
        r == excludes_more_widely(views, other_views),
{
    let mut i: usize = 0;
    while i < rules.len()
        invariant
            i <= rules.len(),
            are_settled(rules@, views),
            are_settled(others@, other_views),
            forall|k: int, j: int|
                0 <= k < i && 0 <= j < other_views.len() && #[trigger] more_widely(
                    views[k],
                    other_views[j],
                ) ==> has_wide_exclusion(other_views, views[k].path.parts),
        decreases rules.len() - i,
    {
        let rule = &rules[i];
        assert(rules@[i as int].is(views[i as int]));
        if !rule.includes && rule.include_subtree {
            if excludes_alone(others, &rule.path, Ghost(other_views), Ghost(views[i as int]))
                && !excludes_widely(others, &rule.path, Ghost(other_views)) {
                return true;
            }
        }
        i += 1;
    }
    false
}

impl Clone for PathFilter {
    fn clone(&self) -> (r: PathFilter)
        ensures
            r@ == self@,
            r.is_settled() == self.is_settled(),
    {
        proof {
            use_type_invariant(self);
        }
        let settled = match &self.settled {
            Some(rules) => {
                let mut out: Vec<SettledRule> = Vec::new();
                let mut i: usize = 0;
                while i < rules.len()
                    invariant
                        i <= rules.len(),
                        are_settled(rules@, self@),
                        are_settled(out@, self@.take(i as int)),
                    decreases rules.len() - i,
                {
                    let rule = &rules[i];
                    assert(rules@[i as int].is(self@[i as int]));
                    let ghost before = out@;
                    out.push(
                        SettledRule {
                            path: clone_path(&rule.path),
                            include_subtree: rule.include_subtree,
                            includes: rule.includes,
                        },
                    );
                    proof {
                        let now = self@.take(i + 1);
                        assert forall|k: int| 0 <= k < out@.len() implies (#[trigger] out@[k]).is(
                            now[k],
                        ) by {
                            if k < i {
                                assert(before[k].is(self@.take(i as int)[k]));
                            }
                        }
                    }
                    i += 1;
                }
                assert(self@.take(self@.len() as int) =~= self@);
                Some(out)
            },
            None => None,
        };
        PathFilter { filter: clone_filter(&self.filter), settled }
    }
}

} // verus!
