//! What filters and queries are good for: nothing that a filter lets through gets lost.
use crate::filter::{
    anything_included, covers, excludes_more_widely, has_wide_exclusion, included, is_insertion,
    is_wide_exclusion, last_match, more_widely, rule_added, rule_before, rule_matches,
    rules_in_order, rules_outside, same_place, subtree_not_excluded, subtree_rule, RuleView,
};
use crate::names::ViewSystemIdentifier;
use crate::path::{
    entity_path_parts, lemma_common_parts, lies_under, path_before, path_view, starts_with, PathView,
};
use crate::query::{
    all_results_listed, found_below, found_in, num_matching, num_matching_below, num_visualized,
    num_visualized_below, one_if, results_listed, results_of, shown_by, visualizers_for,
};
use crate::data_result::ResultView;
use crate::tree::{listed, listed_children, paths_lead, EntityTree, VisitedView};
use re_log_types::EntityPath;
use vstd::prelude::*;

verus! {

/// Whether the hashes of two paths agree if and only if the paths do.
pub open spec fn told_apart(a: PathView, b: PathView) -> bool {
    a.hash == b.hash <==> a.parts == b.parts
}

/// Whether the hashes tell the paths of rules apart from a path.
pub open spec fn rules_told_apart(rules: Seq<RuleView>, path: PathView) -> bool {
    forall|i: int| 0 <= i < rules.len() ==> told_apart((#[trigger] rules[i]).path, path)
}

pub proof fn lemma_starts_with(path: PathView, prefix: PathView)
    requires
        told_apart(prefix, path),
    ensures
        starts_with(path, prefix) <==> lies_under(path.parts, prefix.parts),
{
    assert(path.parts.take(path.parts.len() as int) =~= path.parts);
}

proof fn lemma_lies_under_trans(a: Seq<Seq<char>>, b: Seq<Seq<char>>, c: Seq<Seq<char>>)
    requires
        lies_under(a, b),
        lies_under(b, c),
    ensures
        lies_under(a, c),
{
    assert(a.take(c.len() as int) =~= a.take(b.len() as int).take(c.len() as int));
}

/// Of two paths that a third one lies under, one lies under the other.
proof fn lemma_lies_under_both(a: Seq<Seq<char>>, b: Seq<Seq<char>>, c: Seq<Seq<char>>)
    requires
        lies_under(a, b),
        lies_under(a, c),
    ensures
        lies_under(b, c) || lies_under(c, b),
        b.len() >= c.len() ==> lies_under(b, c),
{
    if b.len() >= c.len() {
        assert(b.take(c.len() as int) =~= a.take(c.len() as int));
    } else {
        assert(c.take(b.len() as int) =~= a.take(b.len() as int));
    }
}

/// Where the last rule about a path is.
proof fn lemma_last_match(rules: Seq<RuleView>, path: PathView) -> (i: int)
    ensures
        match last_match(rules, path) {
            Some(rule) => {
                &&& 0 <= i < rules.len()
                &&& rules[i] == rule
                &&& rule_matches(rule, path)
                &&& forall|j: int| i < j < rules.len() ==> !rule_matches(#[trigger] rules[j], path)
            },
            None => forall|j: int|
                0 <= j < rules.len() ==> !rule_matches(#[trigger] rules[j], path),
        },
    decreases rules.len(),
{
    if rules.len() == 0 {
        0
    } else if rule_matches(rules.last(), path) {
        rules.len() - 1
    } else {
        let init = rules.drop_last();
        let i = lemma_last_match(init, path);
        match last_match(init, path) {
            Some(rule) => {
                assert(init[i] == rules[i]);
                assert forall|j: int| i < j < rules.len() implies !rule_matches(
                    #[trigger] rules[j],
                    path,
                ) by {
                    if j < init.len() {
                        assert(!rule_matches(init[j], path));
                    }
                }
            },
            None => {
                assert forall|j: int| 0 <= j < rules.len() implies !rule_matches(
                    #[trigger] rules[j],
                    path,
                ) by {
                    if j < init.len() {
                        assert(!rule_matches(init[j], path));
                    }
                }
            },
        }
        i
    }
}

/// Whether the hashes tell the paths of the rules of two filters apart, from each other and from a
/// path.
pub open spec fn all_told_apart(
    rules: Seq<RuleView>,
    other: Seq<RuleView>,
    path: PathView,
) -> bool {
    &&& rules_told_apart(rules, path)
    &&& rules_told_apart(other, path)
    &&& forall|j: int| 0 <= j < other.len() ==> rules_told_apart(rules, (#[trigger] other[j]).path)
}

/// A path comes before everything below it.
proof fn lemma_above_comes_before(parts: Seq<Seq<char>>, above: Seq<Seq<char>>)
    requires
        lies_under(parts, above),
        above.len() < parts.len(),
    ensures
        path_before(above, parts),
        !path_before(parts, above),
        parts != above,
{
    let rest = parts.skip(above.len() as int);
    lemma_common_parts(above, Seq::empty(), rest);
    lemma_common_parts(above, rest, Seq::empty());
    assert(above + Seq::<Seq<char>>::empty() =~= above);
    assert(above + rest =~= parts);
}

/// Law: a filter that covers another one, and does not exclude more widely than it, includes every
/// path that the other one does.
///
/// Paths are taken to be the same if their hashes are; this is about paths that hashes tell apart.
pub proof fn law_covering_filters_include_as_much(
    rules: Seq<RuleView>,
    other: Seq<RuleView>,
    path: PathView,
)
    requires
        rules_in_order(other),
        covers(rules, other),
        !excludes_more_widely(rules, other),
        included(other, path),
        all_told_apart(rules, other, path),
    ensures
        included(rules, path),
{
    let jr = lemma_last_match(other, path);
    let r = other[jr];
    assert(r.includes);
    assert(rules_told_apart(rules, other[jr].path));
    // The rule of the first filter that covers the one by which the path is included.
    let is = lemma_last_match(rules, r.path);
    let s = rules[is];
    assert(last_match(rules, r.path) == Some(s) && s.includes);
    assert(told_apart(rules[is].path, r.path));
    assert(told_apart(rules[is].path, path));
    assert(told_apart(other[jr].path, path));
    lemma_starts_with(r.path, s.path);
    lemma_starts_with(path, s.path);
    lemma_starts_with(path, r.path);
    assert(rule_matches(s, path)) by {
        if r.include_subtree {
            lemma_lies_under_trans(path.parts, r.path.parts, s.path.parts);
        } else {
            assert(path.parts == r.path.parts);
        }
    }
    let ie = lemma_last_match(rules, path);
    let e = rules[ie];
    assert(last_match(rules, path) is Some);
    if !e.includes {
        assert(is < ie);
        assert(told_apart(rules[ie].path, path));
        assert(told_apart(rules[ie].path, r.path));
        lemma_starts_with(path, e.path);
        lemma_starts_with(r.path, e.path);
        assert(!rule_matches(e, r.path));
        assert(lies_under(path.parts, e.path.parts)) by {
            if !e.include_subtree {
                assert(e.path.parts == path.parts);
                assert(path.parts.take(path.parts.len() as int) =~= path.parts);
            }
        }
        assert(lies_under(path.parts, r.path.parts)) by {
            if !r.include_subtree {
                assert(r.path.parts == path.parts);
                assert(path.parts.take(path.parts.len() as int) =~= path.parts);
            }
        }
        lemma_lies_under_both(path.parts, r.path.parts, e.path.parts);
        lemma_lies_under_both(path.parts, e.path.parts, r.path.parts);
        // The rule that excludes lies strictly below the one by which the path is included.
        assert(e.path.parts.len() > r.path.parts.len()) by {
            if e.path.parts.len() <= r.path.parts.len() {
                assert(lies_under(r.path.parts, e.path.parts));
                if !e.include_subtree {
                    assert(e.path.parts == path.parts);
                    assert(r.path.parts =~= path.parts);
                }
            }
        }
        assert(r.include_subtree);
        assert(lies_under(e.path.parts, r.path.parts));
        // What the second filter makes of the path of that rule.
        let jf = lemma_last_match(other, e.path);
        assert(!rules[ie].includes);
        assert(told_apart(rules[ie].path, other[jr].path));
        assert(rule_matches(r, e.path)) by {
            assert(lies_under(e.path.parts, r.path.parts));
        }
        assert(last_match(other, e.path) is Some);
        let f = other[jf];
        assert(!f.includes);
        assert(jr < jf);
        assert(!rule_matches(f, path));
        assert(rules_told_apart(rules, other[jf].path));
        assert(told_apart(rules[ie].path, other[jf].path));
        assert(told_apart(other[jf].path, path));
        lemma_starts_with(path, f.path);
        if f.include_subtree {
            assert(starts_with(e.path, f.path));
            assert(lies_under(e.path.parts, f.path.parts)) by {
                assert(e.path.parts.take(e.path.parts.len() as int) =~= e.path.parts);
            }
            lemma_lies_under_trans(path.parts, e.path.parts, f.path.parts);
        } else {
            assert(f.path.parts == e.path.parts);
            assert(e.path.parts != path.parts);
            assert(e.include_subtree);
            assert(more_widely(rules[ie], other[jf]));
            // The second filter excludes everything below that path as well, by a rule that comes
            // after the one by which the path is included.
            assert(has_wide_exclusion(other, e.path.parts));
            let g = choose|g: int|
                0 <= g < other.len() && #[trigger] is_wide_exclusion(other[g], e.path.parts);
            assert(told_apart(other[g].path, path));
            lemma_starts_with(path, other[g].path);
            assert(rule_matches(other[g], path));
            lemma_above_comes_before(e.path.parts, r.path.parts);
            if g < jr {
                assert(rule_before(other[g], other[jr]));
            }
        }
    }
}

proof fn lemma_not_excluded(rules: Seq<RuleView>, path: PathView, i: int)
    requires
        0 <= i < rules.len(),
        rule_matches(rules[i], path),
        rules[i].includes,
        forall|j: int|
            i < j < rules.len() && rule_matches(#[trigger] rules[j], path) ==> rules[j].includes
                || !rules[j].include_subtree,
    ensures
        subtree_not_excluded(rules, path),
    decreases rules.len(),
{
    let last = rules[rules.len() - 1];
    if i < rules.len() - 1 {
        if !(rule_matches(last, path) && last.includes) {
            let init = rules.drop_last();
            assert forall|j: int|
                i < j < init.len() && rule_matches(#[trigger] init[j], path) implies init[j].includes
                || !init[j].include_subtree by {
                assert(rule_matches(rules[j], path));
            }
            lemma_not_excluded(init, path, i);
        }
    }
}

/// Law: where a filter includes a path, it says of everything that the path lies under that
/// something there may be included.
pub proof fn law_nothing_included_is_passed_over(
    rules: Seq<RuleView>,
    path: PathView,
    above: PathView,
)
    requires
        included(rules, path),
        lies_under(path.parts, above.parts),
        rules_told_apart(rules, path),
        rules_told_apart(rules, above),
    ensures
        anything_included(rules, above),
{
    let i = lemma_last_match(rules, path);
    let r = rules[i];
    assert(told_apart(rules[i].path, path));
    assert(told_apart(rules[i].path, above));
    lemma_starts_with(path, r.path);
    assert(lies_under(path.parts, r.path.parts)) by {
        if !r.include_subtree {
            assert(path.parts.take(path.parts.len() as int) =~= path.parts);
        }
    }
    lemma_lies_under_both(path.parts, r.path.parts, above.parts);
    lemma_lies_under_both(path.parts, above.parts, r.path.parts);
    if r.path.parts.len() >= above.parts.len() {
        assert(lies_under(r.path.parts, above.parts));
        assert(starts_with(r.path, above));
        assert(rules[i].includes);
    } else {
        assert(r.include_subtree);
        lemma_starts_with(above, r.path);
        assert(rule_matches(rules[i], above));
        assert forall|j: int|
            i < j < rules.len() && rule_matches(#[trigger] rules[j], above) implies rules[j].includes
            || !rules[j].include_subtree by {
            if !rules[j].includes && rules[j].include_subtree {
                assert(told_apart(rules[j].path, above));
                assert(told_apart(rules[j].path, path));
                lemma_starts_with(above, rules[j].path);
                lemma_starts_with(path, rules[j].path);
                lemma_lies_under_trans(path.parts, above.parts, rules[j].path.parts);
                assert(rule_matches(rules[j], path));
            }
        }
        lemma_not_excluded(rules, above, i);
    }
}

// --- Leaving out a path and everything below it.

/// Of two paths that both lead to a third, the longer one does not come before the shorter one.
proof fn lemma_longer_not_before(shorter: Seq<Seq<char>>, longer: Seq<Seq<char>>)
    requires
        shorter.len() <= longer.len(),
        longer.take(shorter.len() as int) == shorter,
    ensures
        !path_before(longer, shorter),
{
    let rest = longer.skip(shorter.len() as int);
    crate::path::lemma_common_parts(shorter, rest, Seq::empty());
    assert(shorter + rest =~= longer);
    assert(shorter + Seq::<Seq<char>>::empty() =~= shorter);
}

/// Rules that are not about a path make no difference to it.
proof fn lemma_last_match_filter(
    rules: Seq<RuleView>,
    keep: spec_fn(RuleView) -> bool,
    path: PathView,
)
    requires
        forall|i: int|
            0 <= i < rules.len() && !keep(#[trigger] rules[i]) ==> !rule_matches(rules[i], path),
    ensures
        last_match(rules.filter(keep), path) == last_match(rules, path),
    decreases rules.len(),
{
    reveal(Seq::filter);
    if rules.len() > 0 {
        let init = rules.drop_last();
        let n = init.len() as int;
        assert forall|i: int| 0 <= i < init.len() && !keep(
            #[trigger] init[i],
        ) implies !rule_matches(init[i], path) by {
            assert(rules[i] == init[i]);
        }
        lemma_last_match_filter(init, keep, path);
        assert(rules[n] == rules.last());
        if keep(rules.last()) {
            let kept = init.filter(keep);
            assert(kept.push(rules.last()).drop_last() =~= kept);
        }
    }
}

/// A rule in front of which nothing is about a path, and behind which neither, has the last word if
/// it is about the path, and makes no difference if it is not.
proof fn lemma_last_match_insert(rules: Seq<RuleView>, i: int, rule: RuleView, path: PathView)
    requires
        0 <= i <= rules.len(),
    ensures
        !rule_matches(rule, path) ==> last_match(rules.insert(i, rule), path) == last_match(
            rules,
            path,
        ),
        rule_matches(rule, path) && (forall|j: int|
            i <= j < rules.len() ==> !rule_matches(#[trigger] rules[j], path)) ==> last_match(
            rules.insert(i, rule),
            path,
        ) == Some(rule),
    decreases rules.len(),
{
    let all = rules.insert(i, rule);
    if i == rules.len() {
        assert(all =~= rules.push(rule));
        assert(all.drop_last() =~= rules);
    } else {
        let init = rules.drop_last();
        let n = init.len() as int;
        lemma_last_match_insert(init, i, rule, path);
        assert(all.drop_last() =~= init.insert(i, rule));
        assert(all.last() == rules.last());
        if forall|j: int| i <= j < rules.len() ==> !rule_matches(#[trigger] rules[j], path) {
            assert(!rule_matches(rules[n], path));
            assert forall|j: int| i <= j < init.len() implies !rule_matches(
                #[trigger] init[j],
                path,
            ) by {
                assert(rules[j] == init[j]);
            }
        }
    }
}

/// Law: once a path was left out with everything below it, nothing at or below it is included,
/// whatever more specific rules there were. Nothing else changes: what is not at or below the path is
/// included if and only if it was before.
///
/// This is as long as no two of the paths that are involved share a hash.
pub proof fn law_removed_subtrees_are_left_out(
    before: Seq<RuleView>,
    path: PathView,
    after: Seq<RuleView>,
    other: PathView,
)
    requires
        rule_added(rules_outside(before, path), subtree_rule(path, false), after),
        told_apart(path, other),
        rules_told_apart(before, other),
        rules_told_apart(before, path),
    ensures
        lies_under(other.parts, path.parts) ==> !included(after, other),
        !lies_under(other.parts, path.parts) ==> included(after, other) == included(before, other),
        forall|i: int|
            0 <= i < after.len() ==> after[i] == subtree_rule(path, false) || before.contains(
                #[trigger] after[i],
            ) && !lies_under(after[i].path.parts, path.parts),
{
    let rule = subtree_rule(path, false);
    let outside = |rule: RuleView| !starts_with(rule.path, path);
    let rest = rules_outside(before, path);
    assert(rest == before.filter(outside));
    assert forall|j: int| 0 <= j < rest.len() implies before.contains(#[trigger] rest[j])
        && !starts_with(rest[j].path, path) by {
        lemma_filtered(before, outside, j);
    }
    let i = choose|i: int| #[trigger]
        is_insertion(rest, rule, after, i) && forall|j: int|
            0 <= j < rest.len() ==> (if j < i {
                rule_before(#[trigger] rest[j], rule)
            } else {
                rule_before(rule, rest[j])
            });
    assert(!exists|j: int| 0 <= j < rest.len() && same_place(#[trigger] rest[j], rule)) by {
        if exists|j: int| 0 <= j < rest.len() && same_place(#[trigger] rest[j], rule) {
            let j = choose|j: int| 0 <= j < rest.len() && same_place(#[trigger] rest[j], rule);
            assert(rest[j].path.parts == path.parts);
            assert(path.parts.take(path.parts.len() as int) =~= path.parts);
            assert(starts_with(rest[j].path, path));
        }
    }
    assert(is_insertion(rest, rule, after, i));
    assert forall|k: int| 0 <= k < after.len() implies after[k] == rule || before.contains(
        #[trigger] after[k],
    ) && !lies_under(after[k].path.parts, path.parts) by {
        if k < i {
            assert(after[k] == rest[k]);
        } else if k > i {
            assert(after[k] == rest[k - 1]);
        }
    }
    lemma_last_match_insert(rest, i, rule, other);
    if lies_under(other.parts, path.parts) {
        assert(rule_matches(rule, other));
        assert forall|j: int| i <= j < rest.len() implies !rule_matches(
            #[trigger] rest[j],
            other,
        ) by {
            let r = rest[j];
            assert(before.contains(r) && !starts_with(r.path, path));
            let k = before.index_of(r);
            assert(told_apart(before[k].path, other));
            assert(told_apart(before[k].path, path));
            assert(rule_before(rule, r));
            if rule_matches(r, other) {
                if other.hash == r.path.hash {
                    assert(starts_with(r.path, path));
                } else {
                    let a = r.path.parts;
                    let b = path.parts;
                    if b.len() <= a.len() {
                        assert(a.take(b.len() as int) =~= other.parts.take(a.len() as int).take(
                            b.len() as int,
                        ));
                        assert(a.take(b.len() as int) =~= other.parts.take(b.len() as int));
                        assert(starts_with(r.path, path));
                    } else {
                        assert(b.take(a.len() as int) =~= other.parts.take(a.len() as int));
                        lemma_longer_not_before(a, b);
                        assert(a != b);
                    }
                }
            }
        }
    } else {
        assert(path.parts.take(path.parts.len() as int) =~= path.parts);
        assert(!rule_matches(rule, other));
        assert forall|k: int| 0 <= k < before.len() && !outside(
            #[trigger] before[k],
        ) implies !rule_matches(before[k], other) by {
            let r = before[k];
            assert(told_apart(before[k].path, other));
            assert(told_apart(before[k].path, path));
            if rule_matches(r, other) {
                assert(lies_under(r.path.parts, path.parts)) by {
                    if r.path.hash == path.hash {
                        assert(path.parts.take(path.parts.len() as int) =~= path.parts);
                    }
                }
                if other.hash != r.path.hash {
                    assert(other.parts.take(path.parts.len() as int) =~= other.parts.take(
                        r.path.parts.len() as int,
                    ).take(path.parts.len() as int));
                }
            }
        }
        lemma_last_match_filter(before, outside, other);
    }
}

proof fn lemma_filtered(rules: Seq<RuleView>, keep: spec_fn(RuleView) -> bool, j: int)
    requires
        0 <= j < rules.filter(keep).len(),
    ensures
        rules.contains(rules.filter(keep)[j]),
        keep(rules.filter(keep)[j]),
    decreases rules.len(),
{
    reveal(Seq::filter);
    if rules.len() > 0 {
        let init = rules.drop_last();
        let n = init.len() as int;
        let kept = init.filter(keep);
        if j < kept.len() {
            lemma_filtered(init, keep, j);
            let k = init.index_of(kept[j]);
            assert(rules[k] == kept[j]);
        } else {
            assert(rules[n] == rules.filter(keep)[j]);
        }
    }
}

// --- Queries.

/// Whether hashes tell the paths of rules apart from those of all entities of a tree.
pub open spec fn entities_told_apart(rules: Seq<RuleView>, tree: EntityTree) -> bool {
    forall|k: int|
        0 <= k < listed(tree).len() ==> rules_told_apart(
            rules,
            path_view((#[trigger] listed(tree)[k]).path),
        )
}

/// Whether a result is about an entity, and shows it with everything that can.
pub open spec fn shows_entity(
    result: ResultView,
    path: EntityPath,
    visualizable: Seq<(ViewSystemIdentifier, Vec<EntityPath>)>,
) -> bool {
    &&& result.path == path
    &&& result.visualizers == visualizers_for(visualizable, path)
    &&& !result.tree_prefix_only
}

/// Whether some result is.
pub open spec fn has_result_for(
    results: Seq<ResultView>,
    path: EntityPath,
    visualizable: Seq<(ViewSystemIdentifier, Vec<EntityPath>)>,
) -> bool {
    exists|i: int|
        0 <= i < results.len() && shows_entity(#[trigger] results[i], path, visualizable)
}

/// The entity that a list position of children belongs to.
proof fn lemma_listed_child(children: Seq<EntityTree>, k: int) -> (c: int)
    requires
        0 <= k < listed_children(children).len(),
    ensures
        0 <= c < children.len(),
        exists|m: int|
            0 <= m < listed(children[c]).len() && #[trigger] listed(children[c])[m]
                == listed_children(children)[k],
        forall|m: int|
            0 <= m < listed(children[c]).len() ==> #[trigger] listed_children(children).contains(
                listed(children[c])[m],
            ),
    decreases children.len(),
{
    let init = children.drop_last();
    let rest = listed_children(init);
    let all = listed_children(children);
    if k < rest.len() {
        let c = lemma_listed_child(init, k);
        assert(init[c] == children[c]);
        let m = choose|m: int|
            0 <= m < listed(init[c]).len() && #[trigger] listed(init[c])[m] == rest[k];
        assert(listed(children[c])[m] == all[k]);
        assert forall|m: int| 0 <= m < listed(children[c]).len() implies #[trigger] all.contains(
            listed(children[c])[m],
        ) by {
            assert(rest.contains(listed(init[c])[m]));
            let x = rest.index_of(listed(init[c])[m]);
            assert(all[x] == listed(children[c])[m]);
        }
        c
    } else {
        let c = children.len() - 1;
        let own = listed(children[c]);
        assert(own[k - rest.len()] == all[k]);
        assert forall|m: int| 0 <= m < own.len() implies #[trigger] all.contains(own[m]) by {
            assert(all[rest.len() + m] == own[m]);
        }
        c
    }
}

/// What is found in a child is part of what is found below.
pub proof fn lemma_found_child(
    children: Seq<EntityTree>,
    rules: Seq<RuleView>,
    visualizable: Seq<(ViewSystemIdentifier, Vec<EntityPath>)>,
    c: int,
)
    requires
        0 <= c < children.len(),
        found_in(children[c], rules, visualizable) is Some,
    ensures
        ({
            let below = found_below(children, rules, visualizable);
            let own = results_listed(found_in(children[c], rules, visualizable)->0);
            &&& below.len() > 0
            &&& forall|i: int|
                0 <= i < own.len() ==> #[trigger] all_results_listed(below).contains(own[i])
        }),
    decreases children.len(),
{
    let init = children.drop_last();
    let below = found_below(children, rules, visualizable);
    let rest = found_below(init, rules, visualizable);
    let own = results_listed(found_in(children[c], rules, visualizable)->0);
    if c < children.len() - 1 {
        assert(init[c] == children[c]);
        lemma_found_child(init, rules, visualizable, c);
        if let Some(found) = found_in(children.last(), rules, visualizable) {
            assert(below.drop_last() =~= rest);
            assert forall|i: int| 0 <= i < own.len() implies #[trigger] all_results_listed(
                below,
            ).contains(own[i]) by {
                assert(all_results_listed(rest).contains(own[i]));
                let k = all_results_listed(rest).index_of(own[i]);
                assert(all_results_listed(below)[k] == own[i]);
            }
        }
    } else {
        assert(below.drop_last() =~= rest);
        assert forall|i: int| 0 <= i < own.len() implies #[trigger] all_results_listed(
            below,
        ).contains(own[i]) by {
            assert(all_results_listed(below)[all_results_listed(rest).len() + i] == own[i]);
        }
    }
}

/// All entities of a tree lie under its topmost one.
pub proof fn lemma_listed_under(tree: EntityTree, parts: Seq<Seq<char>>, k: int)
    requires
        paths_lead(tree, parts),
        0 <= k < listed(tree).len(),
    ensures
        lies_under(entity_path_parts(listed(tree)[k].path), parts),
    decreases tree,
{
    crate::tree::lemma_paths_lead(tree, parts);
    if k == 0 {
        assert(parts.take(parts.len() as int) =~= parts);
    } else {
        let c = lemma_listed_child(tree.children@, k - 1);
        let child = tree.children@[c];
        let m = choose|m: int|
            0 <= m < listed(child).len() && #[trigger] listed(child)[m] == listed_children(
                tree.children@,
            )[k - 1];
        assert(listed(tree)[k] == listed(child)[m]);
        let under = parts.push(child.name@);
        assert(paths_lead(tree.children@[c], parts.push(tree.children@[c].name@)));
        lemma_listed_under(child, under, m);
        assert(under.take(parts.len() as int) =~= parts);
        lemma_lies_under_trans(entity_path_parts(listed(child)[m].path), under, parts);
    }
}

/// Law: a query finds every entity of a tree that its filter includes and something can show, and
/// everything that can show it.
pub proof fn law_queries_find_all_that_can_be_shown(
    tree: EntityTree,
    parts: Seq<Seq<char>>,
    rules: Seq<RuleView>,
    visualizable: Seq<(ViewSystemIdentifier, Vec<EntityPath>)>,
    k: int,
)
    requires
        paths_lead(tree, parts),
        entities_told_apart(rules, tree),
        0 <= k < listed(tree).len(),
        included(rules, path_view(listed(tree)[k].path)),
        visualizers_for(visualizable, listed(tree)[k].path).len() > 0,
    ensures
        has_result_for(
            results_of(found_in(tree, rules, visualizable)),
            listed(tree)[k].path,
            visualizable,
        ),
    decreases tree,
{
    let path = listed(tree)[k].path;
    let found = found_in(tree, rules, visualizable);
    crate::tree::lemma_paths_lead(tree, parts);
    lemma_listed_under(tree, parts, k);
    assert(listed(tree)[0].path == tree.path);
    assert(rules_told_apart(rules, path_view(listed(tree)[k].path)));
    assert(rules_told_apart(rules, path_view(listed(tree)[0].path)));
    law_nothing_included_is_passed_over(rules, path_view(path), path_view(tree.path));
    if k == 0 {
        let results = results_of(found);
        assert(shows_entity(results[0], path, visualizable));
    } else {
        let c = lemma_listed_child(tree.children@, k - 1);
        let child = tree.children@[c];
        let m = choose|m: int|
            0 <= m < listed(child).len() && #[trigger] listed(child)[m] == listed_children(
                tree.children@,
            )[k - 1];
        assert(listed(tree)[k] == listed(child)[m]);
        assert(paths_lead(tree.children@[c], parts.push(tree.children@[c].name@)));
        assert(entities_told_apart(rules, child)) by {
            assert forall|x: int| 0 <= x < listed(child).len() implies rules_told_apart(
                rules,
                path_view((#[trigger] listed(child)[x]).path),
            ) by {
                assert(listed_children(tree.children@).contains(listed(tree.children@[c])[x]));
                let y = listed_children(tree.children@).index_of(listed(child)[x]);
                assert(listed(tree)[y + 1] == listed(child)[x]);
            }
        }
        law_queries_find_all_that_can_be_shown(
            child,
            parts.push(child.name@),
            rules,
            visualizable,
            m,
        );
        let own = results_of(found_in(child, rules, visualizable));
        let i = choose|i: int|
            0 <= i < own.len() && shows_entity(#[trigger] own[i], path, visualizable);
        assert(found_in(child, rules, visualizable) is Some);
        lemma_found_child(tree.children@, rules, visualizable, c);
        let below = found_below(tree.children@, rules, visualizable);
        assert(all_results_listed(below).contains(own[i]));
        let x = all_results_listed(below).index_of(own[i]);
        let results = results_of(found);
        assert(results[x + 1] == own[i]);
        assert(shows_entity(results[x + 1], path, visualizable));
    }
}

/// Whether a result is one of an entity of a tree, shown by all that can show it if and only if the
/// filter includes it.
pub open spec fn is_proper_result(
    result: ResultView,
    entities: Seq<VisitedView>,
    rules: Seq<RuleView>,
    visualizable: Seq<(ViewSystemIdentifier, Vec<EntityPath>)>,
) -> bool {
    &&& exists|k: int| 0 <= k < entities.len() && (#[trigger] entities[k]).path == result.path
    &&& result.visualizers == shown_by(result.path, rules, visualizable)
    &&& result.tree_prefix_only == !included(rules, path_view(result.path))
    &&& result.overrides is None
}

proof fn lemma_results_below(
    children: Seq<EntityTree>,
    rules: Seq<RuleView>,
    visualizable: Seq<(ViewSystemIdentifier, Vec<EntityPath>)>,
)
    ensures
        ({
            let results = all_results_listed(found_below(children, rules, visualizable));
            forall|i: int|
                0 <= i < results.len() ==> is_proper_result(
                    #[trigger] results[i],
                    listed_children(children),
                    rules,
                    visualizable,
                )
        }),
    decreases children,
{
    if children.len() > 0 {
        let init = children.drop_last();
        let last = children.last();
        lemma_results_below(init, rules, visualizable);
        let rest = all_results_listed(found_below(init, rules, visualizable));
        let results = all_results_listed(found_below(children, rules, visualizable));
        let entities = listed_children(children);
        if found_in(last, rules, visualizable) is Some {
            assert(found_below(children, rules, visualizable).drop_last() =~= found_below(
                init,
                rules,
                visualizable,
            ));
            law_queries_find_proper_results(last, rules, visualizable);
        }
        assert forall|i: int| 0 <= i < results.len() implies is_proper_result(
            #[trigger] results[i],
            entities,
            rules,
            visualizable,
        ) by {
            if i < rest.len() {
                assert(is_proper_result(rest[i], listed_children(init), rules, visualizable));
                let k = choose|k: int|
                    0 <= k < listed_children(init).len() && (#[trigger] listed_children(
                        init,
                    )[k]).path == rest[i].path;
                assert(entities[k].path == results[i].path);
            } else {
                let own = results_of(found_in(last, rules, visualizable));
                assert(own[i - rest.len()] == results[i]);
                assert(is_proper_result(
                    own[i - rest.len()],
                    listed(last),
                    rules,
                    visualizable,
                ));
                let k = choose|k: int|
                    0 <= k < listed(last).len() && (#[trigger] listed(last)[k]).path
                        == results[i].path;
                assert(entities[listed_children(init).len() + k].path == results[i].path);
            }
        }
    }
}

/// Law: everything that a query finds is an entity of the tree, and is shown by everything that can
/// show it if the filter includes it, and else by nothing.
pub proof fn law_queries_find_proper_results(
    tree: EntityTree,
    rules: Seq<RuleView>,
    visualizable: Seq<(ViewSystemIdentifier, Vec<EntityPath>)>,
)
    ensures
        ({
            let results = results_of(found_in(tree, rules, visualizable));
            forall|i: int|
                0 <= i < results.len() ==> is_proper_result(
                    #[trigger] results[i],
                    listed(tree),
                    rules,
                    visualizable,
                )
        }),
    decreases tree,
{
    lemma_results_below(tree.children@, rules, visualizable);
    let results = results_of(found_in(tree, rules, visualizable));
    let below = all_results_listed(found_below(tree.children@, rules, visualizable));
    assert forall|i: int| 0 <= i < results.len() implies is_proper_result(
        #[trigger] results[i],
        listed(tree),
        rules,
        visualizable,
    ) by {
        if i == 0 {
            assert(listed(tree)[0].path == tree.path);
        } else {
            assert(results[i] == below[i - 1]);
            assert(is_proper_result(
                below[i - 1],
                listed_children(tree.children@),
                rules,
                visualizable,
            ));
            let k = choose|k: int|
                0 <= k < listed_children(tree.children@).len() && (#[trigger] listed_children(
                    tree.children@,
                )[k]).path == results[i].path;
            assert(listed(tree)[k + 1].path == results[i].path);
        }
    }
}

/// Law: entities that are only there because something below them is are shown by nothing.
pub proof fn law_prefixes_show_nothing(
    tree: EntityTree,
    rules: Seq<RuleView>,
    visualizable: Seq<(ViewSystemIdentifier, Vec<EntityPath>)>,
    i: int,
)
    requires
        0 <= i < results_of(found_in(tree, rules, visualizable)).len(),
        results_of(found_in(tree, rules, visualizable))[i].tree_prefix_only,
    ensures
        results_of(found_in(tree, rules, visualizable))[i].visualizers.len() == 0,
{
    law_queries_find_proper_results(tree, rules, visualizable);
    let results = results_of(found_in(tree, rules, visualizable));
    assert(is_proper_result(results[i], listed(tree), rules, visualizable));
}

/// Law: what a query shows, a query with a filter that covers the filter of the first, and does not
/// exclude more widely than it, shows as well, and in the same way.
pub proof fn law_covering_queries_show_as_much(
    tree: EntityTree,
    parts: Seq<Seq<char>>,
    rules: Seq<RuleView>,
    other: Seq<RuleView>,
    visualizable: Seq<(ViewSystemIdentifier, Vec<EntityPath>)>,
    i: int,
)
    requires
        paths_lead(tree, parts),
        entities_told_apart(rules, tree),
        entities_told_apart(other, tree),
        forall|j: int| 0 <= j < other.len() ==> rules_told_apart(rules, (#[trigger] other[j]).path),
        rules_in_order(other),
        covers(rules, other),
        !excludes_more_widely(rules, other),
        0 <= i < results_of(found_in(tree, other, visualizable)).len(),
        results_of(found_in(tree, other, visualizable))[i].visualizers.len() > 0,
    ensures
        ({
            let path = results_of(found_in(tree, other, visualizable))[i].path;
            has_result_for(results_of(found_in(tree, rules, visualizable)), path, visualizable)
        }),
{
    law_queries_find_proper_results(tree, other, visualizable);
    let results = results_of(found_in(tree, other, visualizable));
    assert(is_proper_result(results[i], listed(tree), other, visualizable));
    let path = results[i].path;
    let k = choose|k: int| 0 <= k < listed(tree).len() && (#[trigger] listed(tree)[k]).path == path;
    assert(rules_told_apart(rules, path_view(listed(tree)[k].path)));
    assert(rules_told_apart(other, path_view(listed(tree)[k].path)));
    law_covering_filters_include_as_much(rules, other, path_view(path));
    law_queries_find_all_that_can_be_shown(tree, parts, rules, visualizable, k);
}

// --- How many entities there are.

/// How many of some entities a filter includes.
pub open spec fn num_included(entities: Seq<VisitedView>, rules: Seq<RuleView>) -> nat
    decreases entities.len(),
{
    if entities.len() == 0 {
        0
    } else {
        num_included(entities.drop_last(), rules) + one_if(
            included(rules, path_view(entities.last().path)),
        )
    }
}

/// How many of some entities a filter includes and something can show.
pub open spec fn num_shown(
    entities: Seq<VisitedView>,
    rules: Seq<RuleView>,
    visualizable: Seq<(ViewSystemIdentifier, Vec<EntityPath>)>,
) -> nat
    decreases entities.len(),
{
    if entities.len() == 0 {
        0
    } else {
        num_shown(entities.drop_last(), rules, visualizable) + one_if(
            shown_by(entities.last().path, rules, visualizable).len() > 0,
        )
    }
}

proof fn lemma_counts_concat(
    a: Seq<VisitedView>,
    b: Seq<VisitedView>,
    rules: Seq<RuleView>,
    visualizable: Seq<(ViewSystemIdentifier, Vec<EntityPath>)>,
)
    ensures
        num_included(a + b, rules) == num_included(a, rules) + num_included(b, rules),
        num_shown(a + b, rules, visualizable) == num_shown(a, rules, visualizable) + num_shown(
            b,
            rules,
            visualizable,
        ),
    decreases b.len(),
{
    if b.len() == 0 {
        assert(a + b =~= a);
    } else {
        lemma_counts_concat(a, b.drop_last(), rules, visualizable);
        assert((a + b).drop_last() =~= a + b.drop_last());
        assert((a + b).last() == b.last());
    }
}

proof fn lemma_none_included(
    entities: Seq<VisitedView>,
    rules: Seq<RuleView>,
    visualizable: Seq<(ViewSystemIdentifier, Vec<EntityPath>)>,
)
    requires
        forall|k: int|
            0 <= k < entities.len() ==> !included(rules, path_view((#[trigger] entities[k]).path)),
    ensures
        num_included(entities, rules) == 0,
        num_shown(entities, rules, visualizable) == 0,
    decreases entities.len(),
{
    if entities.len() > 0 {
        let init = entities.drop_last();
        let n = init.len() as int;
        assert forall|k: int| 0 <= k < init.len() implies !included(
            rules,
            path_view((#[trigger] init[k]).path),
        ) by {
            assert(entities[k] == init[k]);
        }
        lemma_none_included(init, rules, visualizable);
        assert(!included(rules, path_view(entities[n].path)));
    }
}

/// Law: a query counts all entities of a tree that its filter includes, and of those all that
/// something can show.
pub proof fn law_queries_count_all_that_is_included(
    tree: EntityTree,
    parts: Seq<Seq<char>>,
    rules: Seq<RuleView>,
    visualizable: Seq<(ViewSystemIdentifier, Vec<EntityPath>)>,
)
    requires
        paths_lead(tree, parts),
        entities_told_apart(rules, tree),
    ensures
        num_matching(tree, rules) == num_included(listed(tree), rules),
        num_visualized(tree, rules, visualizable) == num_shown(listed(tree), rules, visualizable),
    decreases tree, tree.children@.len() + 1,
{
    let all = listed(tree);
    crate::tree::lemma_paths_lead(tree, parts);
    assert(all[0].path == tree.path);
    assert(rules_told_apart(rules, path_view(all[0].path)));
    if !anything_included(rules, path_view(tree.path)) {
        assert forall|k: int| 0 <= k < all.len() implies !included(
            rules,
            path_view((#[trigger] all[k]).path),
        ) by {
            assert(rules_told_apart(rules, path_view(all[k].path)));
            lemma_listed_under(tree, parts, k);
            if included(rules, path_view(all[k].path)) {
                law_nothing_included_is_passed_over(
                    rules,
                    path_view(all[k].path),
                    path_view(tree.path),
                );
            }
        }
        lemma_none_included(all, rules, visualizable);
    } else {
        let children = tree.children@;
        assert(children.take(children.len() as int) =~= children);
        lemma_children_count(tree, parts, rules, visualizable, children.len() as int);
        let top = seq![all[0]];
        assert(all =~= top + listed_children(children));
        lemma_counts_concat(top, listed_children(children), rules, visualizable);
        assert(top.drop_last() =~= Seq::empty());
        reveal_with_fuel(num_included, 2);
        reveal_with_fuel(num_shown, 2);
    }
}

proof fn lemma_children_count(
    tree: EntityTree,
    parts: Seq<Seq<char>>,
    rules: Seq<RuleView>,
    visualizable: Seq<(ViewSystemIdentifier, Vec<EntityPath>)>,
    n: int,
)
    requires
        paths_lead(tree, parts),
        entities_told_apart(rules, tree),
        0 <= n <= tree.children@.len(),
    ensures
        ({
            let children = tree.children@.take(n);
            &&& num_matching_below(children, rules) == num_included(
                listed_children(children),
                rules,
            )
            &&& num_visualized_below(children, rules, visualizable) == num_shown(
                listed_children(children),
                rules,
                visualizable,
            )
        }),
    decreases tree, n,
{
    let children = tree.children@.take(n);
    if n > 0 {
        let init = tree.children@.take(n - 1);
        assert(children.drop_last() =~= init);
        let child = tree.children@[n - 1];
        assert(children.last() == child);
        lemma_children_count(tree, parts, rules, visualizable, n - 1);
        crate::tree::lemma_paths_lead(tree, parts);
        assert(paths_lead(tree.children@[n - 1], parts.push(tree.children@[n - 1].name@)));
        assert(entities_told_apart(rules, child)) by {
            assert forall|x: int| 0 <= x < listed(child).len() implies rules_told_apart(
                rules,
                path_view((#[trigger] listed(child)[x]).path),
            ) by {
                let y = lemma_child_listed(tree.children@, n - 1, x);
                assert(listed(tree)[y + 1] == listed(child)[x]);
                assert(rules_told_apart(rules, path_view(listed(tree)[y + 1].path)));
            }
        }
        law_queries_count_all_that_is_included(
            child,
            parts.push(child.name@),
            rules,
            visualizable,
        );
        lemma_counts_concat(listed_children(init), listed(child), rules, visualizable);
    }
}

/// Where an entity of a child is listed among those of all children.
proof fn lemma_child_listed(children: Seq<EntityTree>, c: int, x: int) -> (y: int)
    requires
        0 <= c < children.len(),
        0 <= x < listed(children[c]).len(),
    ensures
        0 <= y < listed_children(children).len(),
        listed_children(children)[y] == listed(children[c])[x],
    decreases children.len(),
{
    let init = children.drop_last();
    if c < init.len() {
        lemma_child_listed(init, c, x)
    } else {
        listed_children(init).len() + x
    }
}

} // verus!
