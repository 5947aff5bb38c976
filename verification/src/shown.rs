//! What is shown, and by what.
use crate::coverage::{
    entities_told_apart, is_proper_result, law_nothing_included_is_passed_over,
    law_queries_find_all_that_can_be_shown, law_queries_find_proper_results, lemma_found_child,
    lemma_listed_under, lemma_starts_with, rules_told_apart, shows_entity, told_apart,
};
use crate::emptied::{lemma_child_is_listed, lemma_listed_is_of_child};
use crate::filter::{
    anything_included, exactly_included, included, is_insertion, last_match, rule_added,
    rule_before, rule_matches, rules_elsewhere, rules_in_order, same_place, RuleView,
};
use crate::names::{names_contain, ViewSystemIdentifier};
use crate::path::{
    comes_before, entity_path_hash, entity_path_parts, lemma_comes_before, lies_under, path_before,
    path_view, paths_contain, PathView,
};
use crate::query::{
    all_results_listed, found_below, found_in, results_listed, results_of, visualizers_for,
    ResultTree,
};
use crate::space_view::{result_shows, shows};
use crate::tree::{lemma_paths_lead, listed, paths_lead, EntityTree};
use re_log_types::EntityPath;
use vstd::prelude::*;

verus! {

// --- Filters.

/// Whether a rule is about the path with some parts.
pub open spec fn applies(rule: RuleView, parts: Seq<Seq<char>>) -> bool {
    if rule.include_subtree {
        lies_under(parts, rule.path.parts)
    } else {
        parts == rule.path.parts
    }
}

/// Whether a rule is the last one about the path with some parts.
pub open spec fn decides(rules: Seq<RuleView>, i: int, parts: Seq<Seq<char>>) -> bool {
    &&& 0 <= i < rules.len()
    &&& applies(rules[i], parts)
    &&& forall|j: int| i < j < rules.len() ==> !applies(#[trigger] rules[j], parts)
}

proof fn lemma_applies(rule: RuleView, path: PathView)
    requires
        told_apart(rule.path, path),
    ensures
        rule_matches(rule, path) == applies(rule, path.parts),
{
    lemma_starts_with(path, rule.path);
}

/// Law: a path is included if and only if the last rule that is about it includes. A rule is about
/// its own path alone, or about everything below it as well.
pub proof fn law_last_rule_decides(rules: Seq<RuleView>, path: PathView)
    requires
        rules_told_apart(rules, path),
    ensures
        included(rules, path) <==> exists|i: int| #[trigger]
            decides(rules, i, path.parts) && rules[i].includes,
    decreases rules.len(),
{
    if rules.len() > 0 {
        let init = rules.drop_last();
        let n = init.len() as int;
        assert forall|i: int| 0 <= i < init.len() implies told_apart(
            (#[trigger] init[i]).path,
            path,
        ) by {
            assert(told_apart(rules[i].path, path));
        }
        law_last_rule_decides(init, path);
        assert(told_apart(rules[n].path, path));
        lemma_applies(rules[n], path);
        if applies(rules[n], path.parts) {
            assert(decides(rules, n, path.parts));
            assert forall|i: int| #[trigger] decides(rules, i, path.parts) implies i == n by {
                if i < n {
                    assert(!applies(rules[n], path.parts));
                }
            }
        } else {
            assert forall|i: int| #[trigger]
                decides(rules, i, path.parts) <==> decides(init, i, path.parts) by {
                if decides(rules, i, path.parts) {
                    assert(i != n);
                    assert forall|j: int| i < j < init.len() implies !applies(
                        #[trigger] init[j],
                        path.parts,
                    ) by {
                        assert(!applies(rules[j], path.parts));
                    }
                }
                if decides(init, i, path.parts) {
                    assert forall|j: int| i < j < rules.len() implies !applies(
                        #[trigger] rules[j],
                        path.parts,
                    ) by {
                        if j < n {
                            assert(!applies(init[j], path.parts));
                        }
                    }
                }
            }
            assert(included(rules, path) == included(init, path));
            if exists|i: int| #[trigger] decides(init, i, path.parts) && init[i].includes {
                let i = choose|i: int| #[trigger]
                    decides(init, i, path.parts) && init[i].includes;
                assert(decides(rules, i, path.parts) && rules[i].includes);
            }
            if exists|i: int| #[trigger] decides(rules, i, path.parts) && rules[i].includes {
                let i = choose|i: int| #[trigger]
                    decides(rules, i, path.parts) && rules[i].includes;
                assert(decides(init, i, path.parts) && init[i].includes);
            }
        }
    } else {
        assert(last_match(rules, path) is None);
    }
}

/// Whether one of some rules that come after a rule is about the path with some parts.
pub open spec fn is_overruled(
    rules: Seq<RuleView>,
    rule: RuleView,
    parts: Seq<Seq<char>>,
) -> bool {
    exists|j: int|
        0 <= j < rules.len() && applies(#[trigger] rules[j], parts) && rule_before(rule, rules[j])
}

proof fn lemma_paths_asymmetric(a: Seq<Seq<char>>, b: Seq<Seq<char>>)
    ensures
        !(path_before(a, b) && path_before(b, a)),
    decreases a.len(),
{
    if a.len() > 0 && b.len() > 0 {
        lemma_comes_before(a[0], b[0]);
        lemma_comes_before(b[0], b[0]);
        lemma_paths_asymmetric(a.skip(1), b.skip(1));
    }
}

/// Of two rules, at most one comes before the other.
proof fn lemma_rules_asymmetric(a: RuleView, b: RuleView)
    ensures
        !(rule_before(a, b) && rule_before(b, a)),
{
    lemma_paths_asymmetric(a.path.parts, b.path.parts);
}

/// A rule does not come before one about the same.
proof fn lemma_not_before_same(a: RuleView, b: RuleView)
    requires
        same_place(a, b),
    ensures
        !rule_before(a, b),
{
    lemma_paths_asymmetric(a.path.parts, a.path.parts);
}

/// Law: a rule that is added decides for every path that it is about, unless a more specific rule
/// is about that path as well. For all other paths nothing changes.
pub proof fn law_added_rules_decide(
    before: Seq<RuleView>,
    rule: RuleView,
    after: Seq<RuleView>,
    path: PathView,
)
    requires
        rules_in_order(before),
        rule_added(before, rule, after),
        rules_told_apart(before, path),
        told_apart(rule.path, path),
    ensures
        included(after, path) == if applies(rule, path.parts) && !is_overruled(
            before,
            rule,
            path.parts,
        ) {
            rule.includes
        } else {
            included(before, path)
        },
{
    let parts = path.parts;
    if exists|i: int|
        0 <= i < before.len() && same_place(#[trigger] before[i], rule) && after == before.update(
            i,
            RuleView { includes: rule.includes, ..before[i] },
        ) {
        let i = choose|i: int|
            0 <= i < before.len() && same_place(#[trigger] before[i], rule) && after
                == before.update(i, RuleView { includes: rule.includes, ..before[i] });
        assert forall|k: int| 0 <= k < after.len() implies told_apart(
            (#[trigger] after[k]).path,
            path,
        ) by {
            assert(told_apart(before[k].path, path));
        }
        law_last_rule_decides(before, path);
        law_last_rule_decides(after, path);
        assert forall|k: int| #[trigger] decides(after, k, parts) <==> decides(
            before,
            k,
            parts,
        ) by {
            assert forall|j: int| 0 <= j < before.len() implies applies(#[trigger] after[j], parts)
                == applies(before[j], parts) by {}
            if decides(before, k, parts) {
                assert forall|j: int| k < j < after.len() implies !applies(
                    #[trigger] after[j],
                    parts,
                ) by {
                    assert(!applies(before[j], parts));
                }
            }
            if decides(after, k, parts) {
                assert forall|j: int| k < j < before.len() implies !applies(
                    #[trigger] before[j],
                    parts,
                ) by {
                    assert(!applies(after[j], parts));
                }
            }
        }
        assert(is_overruled(before, rule, parts) <==> exists|j: int|
            i < j < before.len() && applies(#[trigger] before[j], parts)) by {
            if is_overruled(before, rule, parts) {
                let j = choose|j: int|
                    0 <= j < before.len() && applies(#[trigger] before[j], parts) && rule_before(
                        rule,
                        before[j],
                    );
                if j < i {
                    assert(rule_before(before[j], before[i]));
                    lemma_rules_asymmetric(before[j], rule);
                } else if j == i {
                    lemma_not_before_same(rule, before[i]);
                }
            }
            if exists|j: int| i < j < before.len() && applies(#[trigger] before[j], parts) {
                let j = choose|j: int| i < j < before.len() && applies(#[trigger] before[j], parts);
                assert(rule_before(before[i], before[j]));
                assert(rule_before(rule, before[j]));
            }
        }
        lemma_one_decides(before, path.parts);
        if applies(rule, parts) && !is_overruled(before, rule, parts) {
            assert(decides(before, i, parts));
            assert(decides(after, i, parts));
            lemma_one_decides(after, path.parts);
        } else {
            assert forall|k: int| #[trigger] decides(before, k, parts) implies before[k]
                == after[k] by {
                if k == i {
                    assert(applies(rule, parts));
                }
            }
            if exists|k: int| #[trigger] decides(before, k, parts) && before[k].includes {
                let k = choose|k: int| #[trigger] decides(before, k, parts) && before[k].includes;
                assert(decides(after, k, parts) && after[k].includes);
            }
            if exists|k: int| #[trigger] decides(after, k, parts) && after[k].includes {
                let k = choose|k: int| #[trigger] decides(after, k, parts) && after[k].includes;
                assert(decides(before, k, parts) && before[k].includes);
            }
        }
    } else {
        let i = choose|i: int| #[trigger]
            is_insertion(before, rule, after, i) && forall|j: int|
                0 <= j < before.len() ==> (if j < i {
                    rule_before(#[trigger] before[j], rule)
                } else {
                    rule_before(rule, before[j])
                });
        assert forall|k: int| 0 <= k < after.len() implies told_apart(
            (#[trigger] after[k]).path,
            path,
        ) by {
            if k < i {
                assert(told_apart(before[k].path, path));
            } else if k > i {
                assert(told_apart(before[k - 1].path, path));
            }
        }
        law_last_rule_decides(before, path);
        law_last_rule_decides(after, path);
        assert(after[i] == rule);
        assert(is_overruled(before, rule, parts) <==> exists|j: int|
            i <= j < before.len() && applies(#[trigger] before[j], parts)) by {
            if is_overruled(before, rule, parts) {
                let j = choose|j: int|
                    0 <= j < before.len() && applies(#[trigger] before[j], parts) && rule_before(
                        rule,
                        before[j],
                    );
                if j < i {
                    assert(rule_before(before[j], rule));
                    lemma_rules_asymmetric(before[j], rule);
                }
            }
            if exists|j: int| i <= j < before.len() && applies(#[trigger] before[j], parts) {
                let j = choose|j: int| i <= j < before.len() && applies(
                    #[trigger] before[j],
                    parts,
                );
                assert(rule_before(rule, before[j]));
            }
        }
        lemma_one_decides(after, parts);
        if applies(rule, parts) && !is_overruled(before, rule, parts) {
            assert forall|j: int| i < j < after.len() implies !applies(
                #[trigger] after[j],
                parts,
            ) by {
                assert(after[j] == before[j - 1]);
            }
            assert(decides(after, i, parts));
        } else {
            assert forall|k: int| #[trigger] decides(before, k, parts) implies decides(
                after,
                if k < i {
                    k
                } else {
                    k + 1
                },
                parts,
            ) by {
                let x = if k < i {
                    k
                } else {
                    k + 1
                };
                assert(after[x] == before[k]);
                assert forall|j: int| x < j < after.len() implies !applies(
                    #[trigger] after[j],
                    parts,
                ) by {
                    if j < i {
                        assert(!applies(before[j], parts));
                    } else if j > i {
                        assert(after[j] == before[j - 1]);
                        assert(!applies(before[j - 1], parts));
                    } else if applies(rule, parts) {
                        let y = choose|y: int| i <= y < before.len() && applies(
                            #[trigger] before[y],
                            parts,
                        );
                        assert(!applies(before[y], parts));
                    }
                }
            }
            assert forall|k: int| #[trigger] decides(after, k, parts) implies k != i && decides(
                before,
                if k < i {
                    k
                } else {
                    k - 1
                },
                parts,
            ) by {
                if k == i {
                    let y = choose|y: int| i <= y < before.len() && applies(
                        #[trigger] before[y],
                        parts,
                    );
                    assert(after[y + 1] == before[y]);
                }
                let x = if k < i {
                    k
                } else {
                    k - 1
                };
                assert(after[k] == before[x]);
                assert forall|j: int| x < j < before.len() implies !applies(
                    #[trigger] before[j],
                    parts,
                ) by {
                    if j < i {
                        assert(after[j] == before[j]);
                    } else {
                        assert(after[j + 1] == before[j]);
                    }
                }
            }
            if exists|k: int| #[trigger] decides(before, k, parts) && before[k].includes {
                let k = choose|k: int| #[trigger] decides(before, k, parts) && before[k].includes;
                let x = if k < i {
                    k
                } else {
                    k + 1
                };
                assert(decides(after, x, parts) && after[x].includes);
            }
            if exists|k: int| #[trigger] decides(after, k, parts) && after[k].includes {
                let k = choose|k: int| #[trigger] decides(after, k, parts) && after[k].includes;
                let x = if k < i {
                    k
                } else {
                    k - 1
                };
                assert(decides(before, x, parts) && before[x].includes);
            }
        }
    }
}

/// Only one rule decides.
proof fn lemma_one_decides(rules: Seq<RuleView>, parts: Seq<Seq<char>>)
    ensures
        forall|a: int, b: int|
            #![trigger decides(rules, a, parts), decides(rules, b, parts)]
            decides(rules, a, parts) && decides(rules, b, parts) ==> a == b,
{
    assert forall|a: int, b: int|
        #![trigger decides(rules, a, parts), decides(rules, b, parts)]
        decides(rules, a, parts) && decides(rules, b, parts) implies a == b by {
        if a < b {
            assert(!applies(rules[b], parts));
        } else if b < a {
            assert(!applies(rules[a], parts));
        }
    }
}

/// Law: removing the rules for a path leaves exactly the rules for other paths, in order.
pub proof fn law_rules_for_other_paths_stay(rules: Seq<RuleView>, path: PathView)
    requires
        rules_told_apart(rules, path),
    ensures
        rules_elsewhere(rules, path) == rules.filter(
            |rule: RuleView| rule.path.parts != path.parts,
        ),
    decreases rules.len(),
{
    reveal(Seq::filter);
    if rules.len() > 0 {
        let init = rules.drop_last();
        assert forall|i: int| 0 <= i < init.len() implies told_apart(
            (#[trigger] init[i]).path,
            path,
        ) by {
            assert(told_apart(rules[i].path, path));
        }
        law_rules_for_other_paths_stay(init, path);
        assert(told_apart(rules[rules.len() - 1].path, path));
    }
}

// --- Visualizers.

/// Whether an entity is among some.
pub open spec fn is_one_of(paths: Seq<EntityPath>, path: EntityPath) -> bool {
    exists|c: int|
        0 <= c < paths.len() && entity_path_hash(#[trigger] paths[c]) == entity_path_hash(path)
}

/// Law: what can show an entity is every visualizer that it is listed for, in order.
pub proof fn law_visualizers_are_those_listed(
    entries: Seq<(ViewSystemIdentifier, Vec<EntityPath>)>,
    path: EntityPath,
)
    ensures
        visualizers_for(entries, path) == entries.filter(
            |entry: (ViewSystemIdentifier, Vec<EntityPath>)| is_one_of(entry.1@, path),
        ).map_values(|entry: (ViewSystemIdentifier, Vec<EntityPath>)| entry.0),
    decreases entries.len(),
{
    reveal(Seq::filter);
    if entries.len() > 0 {
        law_visualizers_are_those_listed(entries.drop_last(), path);
        assert(is_one_of(entries.last().1@, path) == paths_contain(entries.last().1@, path));
    }
    assert(visualizers_for(entries, path) =~= entries.filter(
        |entry: (ViewSystemIdentifier, Vec<EntityPath>)| is_one_of(entry.1@, path),
    ).map_values(|entry: (ViewSystemIdentifier, Vec<EntityPath>)| entry.0));
}

/// Whether an entity is listed for a visualizer.
pub open spec fn can_show(
    entries: Seq<(ViewSystemIdentifier, Vec<EntityPath>)>,
    system: Seq<char>,
    path: EntityPath,
) -> bool {
    exists|e: int|
        0 <= e < entries.len() && (#[trigger] entries[e]).0@ == system && is_one_of(
            entries[e].1@,
            path,
        )
}

proof fn lemma_visualizers(
    entries: Seq<(ViewSystemIdentifier, Vec<EntityPath>)>,
    path: EntityPath,
    system: Seq<char>,
)
    ensures
        names_contain(visualizers_for(entries, path), system) <==> can_show(entries, system, path),
    decreases entries.len(),
{
    let all = visualizers_for(entries, path);
    if entries.len() > 0 {
        let init = entries.drop_last();
        let n = init.len() as int;
        let rest = visualizers_for(init, path);
        lemma_visualizers(init, path, system);
        assert(is_one_of(entries[n].1@, path) == paths_contain(entries[n].1@, path));
        if can_show(init, system, path) {
            let e = choose|e: int|
                0 <= e < init.len() && (#[trigger] init[e]).0@ == system && is_one_of(
                    init[e].1@,
                    path,
                );
            assert(entries[e] == init[e]);
        }
        if can_show(entries, system, path) {
            let e = choose|e: int|
                0 <= e < entries.len() && (#[trigger] entries[e]).0@ == system && is_one_of(
                    entries[e].1@,
                    path,
                );
            if e < n {
                assert(entries[e] == init[e]);
            } else {
                assert(all[all.len() - 1]@ == system);
            }
        }
        if names_contain(rest, system) {
            let k = choose|k: int| 0 <= k < rest.len() && (#[trigger] rest[k])@ == system;
            assert(all[k]@ == system);
        }
        if names_contain(all, system) {
            let k = choose|k: int| 0 <= k < all.len() && (#[trigger] all[k])@ == system;
            if k < rest.len() {
                assert(rest[k]@ == system);
            }
        }
    }
}

/// Law: of what a query found, an entity is handed to a visualizer if and only if the filter
/// includes it and it is listed for that visualizer.
pub proof fn law_visualizers_get_what_they_can_show(
    tree: EntityTree,
    parts: Seq<Seq<char>>,
    rules: Seq<RuleView>,
    visualizable: Seq<(ViewSystemIdentifier, Vec<EntityPath>)>,
    k: int,
    system: Seq<char>,
)
    requires
        paths_lead(tree, parts),
        entities_told_apart(rules, tree),
        0 <= k < listed(tree).len(),
        forall|j: int|
            0 <= j < listed(tree).len() && entity_path_hash((#[trigger] listed(tree)[j]).path)
                == entity_path_hash(listed(tree)[k].path) ==> path_view(listed(tree)[j].path)
                == path_view(listed(tree)[k].path),
    ensures
        shows(
            results_of(found_in(tree, rules, visualizable)),
            system,
            listed(tree)[k].path,
        ) <==> included(rules, path_view(listed(tree)[k].path)) && can_show(
            visualizable,
            system,
            listed(tree)[k].path,
        ),
{
    let path = listed(tree)[k].path;
    let results = results_of(found_in(tree, rules, visualizable));
    lemma_visualizers(visualizable, path, system);
    if included(rules, path_view(path)) && can_show(visualizable, system, path) {
        law_queries_find_all_that_can_be_shown(tree, parts, rules, visualizable, k);
        let i = choose|i: int|
            0 <= i < results.len() && shows_entity(#[trigger] results[i], path, visualizable);
        assert(result_shows(results[i], system, path));
    }
    if shows(results, system, path) {
        let i = choose|i: int|
            0 <= i < results.len() && #[trigger] result_shows(results[i], system, path);
        law_queries_find_proper_results(tree, rules, visualizable);
        assert(is_proper_result(results[i], listed(tree), rules, visualizable));
        let other = results[i].path;
        let j = choose|j: int|
            0 <= j < listed(tree).len() && (#[trigger] listed(tree)[j]).path == other;
        assert(path_view(other) == path_view(path));
        lemma_visualizers(visualizable, other, system);
        assert(can_show(visualizable, system, other));
        let e = choose|e: int|
            0 <= e < visualizable.len() && (#[trigger] visualizable[e]).0@ == system && is_one_of(
                visualizable[e].1@,
                other,
            );
        let c = choose|c: int|
            0 <= c < visualizable[e].1@.len() && entity_path_hash(
                #[trigger] visualizable[e].1@[c],
            ) == entity_path_hash(other);
        assert(entity_path_hash(visualizable[e].1@[c]) == entity_path_hash(path));
        assert(is_one_of(visualizable[e].1@, path));
    }
}

// --- What is part of a result.

/// Whether an entity is part of the result of a query for its own sake: the filter includes it and
/// something can show it, or a rule includes this very entity.
pub open spec fn is_wanted(
    path: EntityPath,
    rules: Seq<RuleView>,
    visualizable: Seq<(ViewSystemIdentifier, Vec<EntityPath>)>,
) -> bool {
    ||| included(rules, path_view(path)) && exists|system: Seq<char>| #[trigger]
        can_show(visualizable, system, path)
    ||| exists|i: int|
        0 <= i < rules.len() && (#[trigger] rules[i]).includes && !rules[i].include_subtree
            && rules[i].path.parts == entity_path_parts(path)
}

/// Whether an entity of a tree at or below some place is wanted.
pub open spec fn wants_below(
    tree: EntityTree,
    rules: Seq<RuleView>,
    visualizable: Seq<(ViewSystemIdentifier, Vec<EntityPath>)>,
    parts: Seq<Seq<char>>,
) -> bool {
    exists|m: int|
        0 <= m < listed(tree).len() && is_wanted(
            (#[trigger] listed(tree)[m]).path,
            rules,
            visualizable,
        ) && lies_under(entity_path_parts(listed(tree)[m].path), parts)
}

proof fn lemma_some_visualizer(
    visualizable: Seq<(ViewSystemIdentifier, Vec<EntityPath>)>,
    path: EntityPath,
)
    ensures
        visualizers_for(visualizable, path).len() > 0 <==> exists|system: Seq<char>| #[trigger]
            can_show(visualizable, system, path),
{
    let all = visualizers_for(visualizable, path);
    if all.len() > 0 {
        lemma_visualizers(visualizable, path, all[0]@);
        assert(names_contain(all, all[0]@));
        assert(can_show(visualizable, all[0]@, path));
    }
    if exists|system: Seq<char>| #[trigger] can_show(visualizable, system, path) {
        let system = choose|system: Seq<char>| #[trigger] can_show(visualizable, system, path);
        lemma_visualizers(visualizable, path, system);
    }
}

proof fn lemma_exactly_included(rules: Seq<RuleView>, path: EntityPath)
    requires
        rules_told_apart(rules, path_view(path)),
    ensures
        exactly_included(rules, path_view(path)) <==> exists|i: int|
            0 <= i < rules.len() && (#[trigger] rules[i]).includes && !rules[i].include_subtree
                && rules[i].path.parts == entity_path_parts(path),
{
    if exactly_included(rules, path_view(path)) {
        let i = choose|i: int|
            0 <= i < rules.len() && (#[trigger] rules[i]).includes && !rules[i].include_subtree
                && rules[i].path.hash == path_view(path).hash;
        assert(told_apart(rules[i].path, path_view(path)));
    }
    if exists|i: int|
        0 <= i < rules.len() && (#[trigger] rules[i]).includes && !rules[i].include_subtree
            && rules[i].path.parts == entity_path_parts(path) {
        let i = choose|i: int|
            0 <= i < rules.len() && (#[trigger] rules[i]).includes && !rules[i].include_subtree
                && rules[i].path.parts == entity_path_parts(path);
        assert(told_apart(rules[i].path, path_view(path)));
    }
}

/// What a child of a tree has of the tree.
proof fn lemma_child(tree: EntityTree, base: Seq<Seq<char>>, rules: Seq<RuleView>, c: int)
    requires
        paths_lead(tree, base),
        entities_told_apart(rules, tree),
        0 <= c < tree.children@.len(),
    ensures
        paths_lead(tree.children@[c], base.push(tree.children@[c].name@)),
        entities_told_apart(rules, tree.children@[c]),
{
    lemma_paths_lead(tree, base);
    let child = tree.children@[c];
    assert forall|x: int| 0 <= x < listed(child).len() implies rules_told_apart(
        rules,
        path_view((#[trigger] listed(child)[x]).path),
    ) by {
        let n = lemma_child_is_listed(tree.children@, c, x);
        assert(listed(tree)[n + 1] == listed(child)[x]);
    }
}

proof fn lemma_wanted_is_found(
    tree: EntityTree,
    base: Seq<Seq<char>>,
    rules: Seq<RuleView>,
    visualizable: Seq<(ViewSystemIdentifier, Vec<EntityPath>)>,
    m: int,
)
    requires
        paths_lead(tree, base),
        entities_told_apart(rules, tree),
        0 <= m < listed(tree).len(),
        is_wanted(listed(tree)[m].path, rules, visualizable),
    ensures
        found_in(tree, rules, visualizable) is Some,
    decreases tree,
{
    let path = listed(tree)[m].path;
    lemma_paths_lead(tree, base);
    lemma_listed_under(tree, base, m);
    assert(listed(tree)[0].path == tree.path);
    assert(rules_told_apart(rules, path_view(listed(tree)[m].path)));
    assert(rules_told_apart(rules, path_view(listed(tree)[0].path)));
    lemma_some_visualizer(visualizable, path);
    lemma_exactly_included(rules, path);
    assert(anything_included(rules, path_view(tree.path))) by {
        if included(rules, path_view(path)) {
            law_nothing_included_is_passed_over(rules, path_view(path), path_view(tree.path));
        } else {
            let i = choose|i: int|
                0 <= i < rules.len() && (#[trigger] rules[i]).includes && !rules[i].include_subtree
                    && rules[i].path.parts == entity_path_parts(path);
            assert(crate::path::starts_with(rules[i].path, path_view(tree.path)));
        }
    }
    if m > 0 {
        let (c, k) = lemma_listed_is_of_child(tree.children@, m - 1);
        lemma_child(tree, base, rules, c);
        lemma_wanted_is_found(
            tree.children@[c],
            base.push(tree.children@[c].name@),
            rules,
            visualizable,
            k,
        );
        lemma_found_child(tree.children@, rules, visualizable, c);
    }
}

/// Where a result from below comes from.
proof fn lemma_result_of_child(
    children: Seq<EntityTree>,
    rules: Seq<RuleView>,
    visualizable: Seq<(ViewSystemIdentifier, Vec<EntityPath>)>,
    i: int,
) -> (at: (int, int))
    requires
        0 <= i < all_results_listed(found_below(children, rules, visualizable)).len(),
    ensures
        0 <= at.0 < children.len(),
        0 <= at.1 < results_of(found_in(children[at.0], rules, visualizable)).len(),
        results_of(found_in(children[at.0], rules, visualizable))[at.1] == all_results_listed(
            found_below(children, rules, visualizable),
        )[i],
    decreases children.len(),
{
    if children.len() == 0 {
        assert(found_below(children, rules, visualizable) =~= Seq::empty());
        (0, 0)
    } else {
        let init = children.drop_last();
        let rest = found_below(init, rules, visualizable);
        match found_in(children.last(), rules, visualizable) {
            Some(found) => {
                assert(rest.push(found).drop_last() =~= rest);
                if i < all_results_listed(rest).len() {
                    lemma_result_of_child(init, rules, visualizable, i)
                } else {
                    (init.len() as int, i - all_results_listed(rest).len())
                }
            },
            None => lemma_result_of_child(init, rules, visualizable, i),
        }
    }
}

/// Law: an entity is part of the result of a query if it or anything below it is wanted for its own
/// sake.
pub proof fn law_wanted_entities_are_part_of_results(
    tree: EntityTree,
    base: Seq<Seq<char>>,
    rules: Seq<RuleView>,
    visualizable: Seq<(ViewSystemIdentifier, Vec<EntityPath>)>,
    k: int,
)
    requires
        paths_lead(tree, base),
        entities_told_apart(rules, tree),
        0 <= k < listed(tree).len(),
        wants_below(tree, rules, visualizable, entity_path_parts(listed(tree)[k].path)),
    ensures
        exists|i: int|
            0 <= i < results_of(found_in(tree, rules, visualizable)).len() && (
            #[trigger] results_of(found_in(tree, rules, visualizable))[i]).path == listed(
                tree,
            )[k].path,
    decreases tree,
{
    let parts = entity_path_parts(listed(tree)[k].path);
    let results = results_of(found_in(tree, rules, visualizable));
    let m = choose|m: int|
        0 <= m < listed(tree).len() && is_wanted(
            (#[trigger] listed(tree)[m]).path,
            rules,
            visualizable,
        ) && lies_under(entity_path_parts(listed(tree)[m].path), parts);
    let wanted = entity_path_parts(listed(tree)[m].path);
    lemma_paths_lead(tree, base);
    lemma_wanted_is_found(tree, base, rules, visualizable, m);
    if k == 0 {
        assert(results[0].path == tree.path);
    } else {
        let depth = base.len() as int;
        let (c, x) = lemma_listed_is_of_child(tree.children@, k - 1);
        let child = tree.children@[c];
        let under = base.push(child.name@);
        lemma_child(tree, base, rules, c);
        lemma_listed_under(child, under, x);
        assert(parts[depth] == parts.take(depth + 1)[depth]);
        assert(parts[depth] == child.name@);
        assert(wanted[depth] == wanted.take(parts.len() as int)[depth]);
        if m == 0 {
            assert(wanted.len() == depth);
        }
        let (d, y) = lemma_listed_is_of_child(tree.children@, m - 1);
        let other = tree.children@[d];
        lemma_child(tree, base, rules, d);
        lemma_listed_under(other, base.push(other.name@), y);
        assert(wanted[depth] == wanted.take(depth + 1)[depth]);
        assert(wanted[depth] == other.name@);
        if c != d {
            lemma_comes_before(child.name@, child.name@);
            if c < d {
                assert(comes_before(tree.children@[c].name@, tree.children@[d].name@));
            } else {
                assert(comes_before(tree.children@[d].name@, tree.children@[c].name@));
            }
        }
        assert(listed(child)[y].path == listed(tree)[m].path);
        assert(wants_below(child, rules, visualizable, parts));
        law_wanted_entities_are_part_of_results(child, under, rules, visualizable, x);
        let own = results_of(found_in(child, rules, visualizable));
        let i = choose|i: int| 0 <= i < own.len() && (#[trigger] own[i]).path == listed(
            child,
        )[x].path;
        lemma_found_child(tree.children@, rules, visualizable, c);
        let below = all_results_listed(found_below(tree.children@, rules, visualizable));
        assert(below.contains(own[i]));
        let z = below.index_of(own[i]);
        assert(results[z + 1] == own[i]);
    }
}

/// Law: nothing is part of the result of a query but what is wanted for its own sake, or leads to
/// something that is.
pub proof fn law_results_lead_to_what_is_wanted(
    tree: EntityTree,
    base: Seq<Seq<char>>,
    rules: Seq<RuleView>,
    visualizable: Seq<(ViewSystemIdentifier, Vec<EntityPath>)>,
    i: int,
)
    requires
        paths_lead(tree, base),
        entities_told_apart(rules, tree),
        0 <= i < results_of(found_in(tree, rules, visualizable)).len(),
    ensures
        wants_below(
            tree,
            rules,
            visualizable,
            entity_path_parts(results_of(found_in(tree, rules, visualizable))[i].path),
        ),
    decreases tree,
{
    let results = results_of(found_in(tree, rules, visualizable));
    let below = all_results_listed(found_below(tree.children@, rules, visualizable));
    lemma_paths_lead(tree, base);
    assert(listed(tree)[0].path == tree.path);
    assert(rules_told_apart(rules, path_view(listed(tree)[0].path)));
    lemma_some_visualizer(visualizable, tree.path);
    lemma_exactly_included(rules, tree.path);
    if i == 0 && is_wanted(tree.path, rules, visualizable) {
        assert(base.take(base.len() as int) =~= base);
    } else {
        let j = if i == 0 {
            0
        } else {
            i - 1
        };
        if i == 0 {
            let found = found_below(tree.children@, rules, visualizable);
            assert(found.len() > 0);
            lemma_not_empty(found);
        } else {
            assert(results[i] == below[j]);
        }
        let (c, x) = lemma_result_of_child(tree.children@, rules, visualizable, j);
        let child = tree.children@[c];
        let under = base.push(child.name@);
        lemma_child(tree, base, rules, c);
        law_results_lead_to_what_is_wanted(child, under, rules, visualizable, x);
        let place = entity_path_parts(below[j].path);
        let y = choose|y: int|
            0 <= y < listed(child).len() && is_wanted(
                (#[trigger] listed(child)[y]).path,
                rules,
                visualizable,
            ) && lies_under(entity_path_parts(listed(child)[y].path), place);
        let m = lemma_child_is_listed(tree.children@, c, y);
        assert(listed(tree)[m + 1].path == listed(child)[y].path);
        if i == 0 {
            lemma_listed_under(tree, base, m + 1);
        }
    }
}

proof fn lemma_not_empty(trees: Seq<ResultTree>)
    requires
        trees.len() > 0,
    ensures
        all_results_listed(trees).len() > 0,
{
    assert(results_listed(trees.last()).len() > 0);
}

} // verus!
