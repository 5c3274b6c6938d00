use vstd::prelude::*;

use crate::json::{
    as_array, as_i64, as_object, as_str, as_u64, get, get_opt, json_as_array, json_as_i64,
    json_as_bool, json_as_object, json_as_str, json_as_u64, json_get, json_get_opt, member,
    member_of, JsonValue, as_bool,
};
use crate::text::{
    chars_of, concat3, concat4, contains_string, dedup, dedup_strings, find_char, index_of_from,
    lemma_index_of_from_bounds, str_eq, string_of, string_of_range, trim, trimmed, views,
    zero_padded, zero_padded_chars,
};

verus! {

/// What the running model service can take as input, and its name.
#[derive(Debug, Clone, Default)]
pub struct AiServiceProps {
    pub vision: bool,
    pub audio: bool,
    pub model_alias: String,
}

/// A tag group of the AI settings: its name, how many of its tags may be chosen at most, and
/// its tags.
#[derive(Debug, Clone)]
pub struct TagGroupSchema {
    pub name: String,
    pub max_select: usize,
    pub tags: Vec<String>,
}

/// Whether a score rule adds to or subtracts from the score.
#[derive(Debug, Clone, Copy, PartialEq, Eq)]
pub enum ScoreDirection {
    Add,
    Subtract,
}

/// A score rule: its name, direction and the largest change it may make.
#[derive(Debug, Clone)]
pub struct ScoreRuleSchema {
    pub name: String,
    pub direction: ScoreDirection,
    pub max_delta: i32,
}

/// The AI text settings: the tag groups and the score rules.
#[derive(Debug, Clone)]
pub struct AiTextSchema {
    pub tag_groups: Vec<TagGroupSchema>,
    pub score_rules: Vec<ScoreRuleSchema>,
}

/// What the model concluded about a video.
#[derive(Debug, Clone)]
pub struct AiAnalysisResult {
    pub labels: Vec<String>,
    pub score: u8,
    pub evidence_summary: String,
}

/// A video the AI could not analyse, with the reason.
#[derive(Debug, Clone)]
pub struct AiFailureRecord {
    pub filename: String,
    pub reason: String,
}

/// A tag group as text: name, maximum selection, tags.
pub type GroupView = (Seq<char>, nat, Seq<Seq<char>>);

/// A score rule as values: name, direction, maximum change.
pub type RuleView = (Seq<char>, ScoreDirection, int);

pub open spec fn group_view(g: TagGroupSchema) -> GroupView {
    (g.name@, g.max_select as nat, views(g.tags@))
}

pub open spec fn rule_view(r: ScoreRuleSchema) -> RuleView {
    (r.name@, r.direction, r.max_delta as int)
}

pub open spec fn groups_view(gs: Seq<TagGroupSchema>) -> Seq<GroupView> {
    gs.map_values(|g: TagGroupSchema| group_view(g))
}

pub open spec fn rules_view(rs: Seq<ScoreRuleSchema>) -> Seq<RuleView> {
    rs.map_values(|r: ScoreRuleSchema| rule_view(r))
}

/// The tag texts of a group's `tags` array, trimmed; the first element that is not a string,
/// or is blank, is an error.
pub open spec fn group_tags_checked(name: Seq<char>, items: Seq<JsonValue>) -> Result<Seq<Seq<char>>, Seq<char>>
    decreases items.len(),
{
    if items.len() == 0 {
        Ok(Seq::empty())
    } else {
        match json_as_str(Some(items[0])) {
            None => Err("tag_groups."@ + name + ".tags 中存在非字符串标签"@),
            Some(s) => if trimmed(s).len() == 0 {
                Err("tag_groups."@ + name + ".tags 中存在空标签"@)
            } else {
                match group_tags_checked(name, items.drop_first()) {
                    Err(e) => Err(e),
                    Ok(rest) => Ok(seq![trimmed(s)] + rest),
                }
            },
        }
    }
}

/// One tag group of the settings, checked: `max_select` a non-negative integer, `tags` a
/// non-empty array of non-blank strings (kept trimmed, repeats dropped).
pub open spec fn group_checked(name: Seq<char>, value: JsonValue) -> Result<GroupView, Seq<char>> {
    match json_as_u64(json_get(value, "max_select"@)) {
        None => Err("tag_groups."@ + name + ".max_select 必须是非负整数"@),
        Some(max) => match json_as_array(json_get(value, "tags"@)) {
            None => Err("tag_groups."@ + name + ".tags 必须是字符串数组"@),
            Some(items) => if items.len() == 0 {
                Err("tag_groups."@ + name + ".tags 不能为空"@)
            } else {
                match group_tags_checked(name, items) {
                    Err(e) => Err(e),
                    Ok(tags) => Ok((name, (max as usize) as nat, dedup(tags))),
                }
            },
        },
    }
}

/// All tag groups, checked in order; the first error wins.
pub open spec fn groups_checked(members: Seq<(String, JsonValue)>) -> Result<Seq<GroupView>, Seq<char>>
    decreases members.len(),
{
    if members.len() == 0 {
        Ok(Seq::empty())
    } else {
        match group_checked(members[0].0@, members[0].1) {
            Err(e) => Err(e),
            Ok(g) => match groups_checked(members.drop_first()) {
                Err(e) => Err(e),
                Ok(rest) => Ok(seq![g] + rest),
            },
        }
    }
}

/// One score rule, checked: a non-blank `name` (trimmed), `direction` `add` or `subtract`,
/// and an integer `max_delta` whose value as an `i32` lies in 0..=100.
pub open spec fn rule_checked(rule: JsonValue) -> Result<RuleView, Seq<char>> {
    match json_as_str(json_get(rule, "name"@)) {
        None => Err("score_rules[].name 必须是非空字符串"@),
        Some(raw) => {
            let name = trimmed(raw);
            if name.len() == 0 {
                Err("score_rules[].name 必须是非空字符串"@)
            } else {
                let dir_text = match json_as_str(json_get(rule, "direction"@)) {
                    Some(d) => d,
                    None => Seq::<char>::empty(),
                };
                if dir_text != "add"@ && dir_text != "subtract"@ {
                    Err("score_rules."@ + name + " direction 无效: "@ + dir_text)
                } else {
                    let direction = if dir_text == "add"@ {
                        ScoreDirection::Add
                    } else {
                        ScoreDirection::Subtract
                    };
                    match json_as_i64(json_get(rule, "max_delta"@)) {
                        None => Err("score_rules."@ + name + ".max_delta 必须是整数"@),
                        Some(m) => {
                            let d = (m as i32) as int;
                            if d < 0 || d > 100 {
                                Err("score_rules."@ + name + ".max_delta 必须在 0-100"@)
                            } else {
                                Ok((name, direction, d))
                            }
                        },
                    }
                }
            }
        },
    }
}

/// All score rules, checked in order; the first error wins.
pub open spec fn rules_checked(items: Seq<JsonValue>) -> Result<Seq<RuleView>, Seq<char>>
    decreases items.len(),
{
    if items.len() == 0 {
        Ok(Seq::empty())
    } else {
        match rule_checked(items[0]) {
            Err(e) => Err(e),
            Ok(r) => match rules_checked(items.drop_first()) {
                Err(e) => Err(e),
                Ok(rest) => Ok(seq![r] + rest),
            },
        }
    }
}

/// The AI text settings read from a JSON document: a non-empty `tag_groups` object and an
/// optional `score_rules` array.
pub open spec fn settings_checked(root: JsonValue) -> Result<(Seq<GroupView>, Seq<RuleView>), Seq<char>> {
    match json_as_object(json_get(root, "tag_groups"@)) {
        None => Err("AI 文本设置缺少 tag_groups 对象"@),
        Some(members) => if members.len() == 0 {
            Err("tag_groups 不能为空"@)
        } else {
            match groups_checked(members) {
                Err(e) => Err(e),
                Ok(groups) => match json_get(root, "score_rules"@) {
                    None => Ok((groups, Seq::empty())),
                    Some(rules) => match json_as_array(Some(rules)) {
                        None => Err("score_rules 必须是数组"@),
                        Some(items) => match rules_checked(items) {
                            Err(e) => Err(e),
                            Ok(rs) => Ok((groups, rs)),
                        },
                    },
                },
            }
        },
    }
}

/// The tags of one group, trimmed, in order (before repeats are dropped).
fn check_group_tags(name: &str, items: &Vec<JsonValue>) -> (r: Result<Vec<String>, String>)
    ensures
        match group_tags_checked(name@, items@) {
            Ok(ts) => r matches Ok(v) && views(v@) == ts,
            Err(e) => r matches Err(m) && m@ == e,
        },
{
    let mut out: Vec<String> = Vec::new();
    let mut i: usize = 0;
    assert(items@.skip(0) == items@);
    while i < items.len()
        invariant
            i <= items.len(),
            group_tags_checked(name@, items@) == match group_tags_checked(name@, items@.skip(i as int)) {
                Ok(rest) => Ok(views(out@) + rest),
                Err(e) => Err(e),
            },
        decreases items.len() - i,
    {
        let ghost rest = items@.skip(i as int);
        assert(rest[0] == items@[i as int]);
        assert(rest.drop_first() =~= items@.skip(i + 1));
        match as_str(Some(&items[i])) {
            None => {
                return Err(concat3("tag_groups.", name, ".tags 中存在非字符串标签"));
            },
            Some(s) => {
                let t = trim(s.as_str());
                if t.as_str().is_empty() {
                    return Err(concat3("tag_groups.", name, ".tags 中存在空标签"));
                }
                let ghost prev = out@;
                out.push(t);
                proof {
                    assert(views(out@) == views(prev).push(t@));
                    match group_tags_checked(name@, items@.skip(i + 1)) {
                        Ok(more) => {
                            assert(views(prev) + (seq![t@] + more) =~= views(out@) + more);
                        },
                        Err(_) => {},
                    }
                }
            },
        }
        i += 1;
    }
    assert(items@.skip(i as int).len() == 0);
    assert(views(out@) + Seq::<Seq<char>>::empty() =~= views(out@));
    Ok(out)
}

/// One tag group of the settings.
fn check_group(name: &String, value: &JsonValue) -> (r: Result<TagGroupSchema, String>)
    ensures
        match group_checked(name@, *value) {
            Ok(g) => r matches Ok(s) && group_view(s) == g,
            Err(e) => r matches Err(m) && m@ == e,
        },
{
    let max = match as_u64(get(value, "max_select")) {
        None => {
            return Err(concat3("tag_groups.", name.as_str(), ".max_select 必须是非负整数"));
        },
        Some(m) => m,
    };
    let items = match as_array(get(value, "tags")) {
        None => {
            return Err(concat3("tag_groups.", name.as_str(), ".tags 必须是字符串数组"));
        },
        Some(a) => a,
    };
    if items.len() == 0 {
        return Err(concat3("tag_groups.", name.as_str(), ".tags 不能为空"));
    }
    let tags = match check_group_tags(name.as_str(), items) {
        Err(e) => {
            return Err(e);
        },
        Ok(ts) => ts,
    };
    let tags = dedup_strings(tags);
    Ok(TagGroupSchema { name: name.clone(), max_select: max as usize, tags })
}

/// One score rule of the settings.
fn check_rule(rule: &JsonValue) -> (r: Result<ScoreRuleSchema, String>)
    ensures
        match rule_checked(*rule) {
            Ok(v) => r matches Ok(s) && rule_view(s) == v,
            Err(e) => r matches Err(m) && m@ == e,
        },
{
    let name = match as_str(get(rule, "name")) {
        None => {
            return Err(String::from_str("score_rules[].name 必须是非空字符串"));
        },
        Some(raw) => trim(raw.as_str()),
    };
    if name.as_str().is_empty() {
        return Err(String::from_str("score_rules[].name 必须是非空字符串"));
    }
    let dir_text = match as_str(get(rule, "direction")) {
        Some(d) => d.clone(),
        None => String::new(),
    };
    let direction = if str_eq(dir_text.as_str(), "add") {
        ScoreDirection::Add
    } else if str_eq(dir_text.as_str(), "subtract") {
        ScoreDirection::Subtract
    } else {
        return Err(concat4("score_rules.", name.as_str(), " direction 无效: ", dir_text.as_str()));
    };
    let m = match as_i64(get(rule, "max_delta")) {
        None => {
            return Err(concat3("score_rules.", name.as_str(), ".max_delta 必须是整数"));
        },
        Some(m) => m,
    };
    let d = #[verifier::truncate] (m as i32);
    if d < 0 || d > 100 {
        return Err(concat3("score_rules.", name.as_str(), ".max_delta 必须在 0-100"));
    }
    Ok(ScoreRuleSchema { name, direction, max_delta: d })
}

/// Checks the AI text settings (already read as JSON) and returns the tag groups and score
/// rules they describe, or the first problem found.
pub fn validate_ai_text_settings_value(root: &JsonValue) -> (r: Result<AiTextSchema, String>)
    ensures
        match settings_checked(*root) {
            Ok((gs, rs)) => r matches Ok(s) && groups_view(s.tag_groups@) == gs && rules_view(
                s.score_rules@,
            ) == rs,
            Err(e) => r matches Err(m) && m@ == e,
        },
{
    let members = match as_object(get(root, "tag_groups")) {
        None => {
            return Err(String::from_str("AI 文本设置缺少 tag_groups 对象"));
        },
        Some(m) => m,
    };
    if members.len() == 0 {
        return Err(String::from_str("tag_groups 不能为空"));
    }
    let mut groups: Vec<TagGroupSchema> = Vec::new();
    let mut i: usize = 0;
    assert(members@.skip(0) == members@);
    while i < members.len()
        invariant
            i <= members.len(),
            json_as_object(json_get(*root, "tag_groups"@)) == Some(members@),
            members@.len() > 0,
            groups_checked(members@) == match groups_checked(members@.skip(i as int)) {
                Ok(rest) => Ok(groups_view(groups@) + rest),
                Err(e) => Err(e),
            },
        decreases members.len() - i,
    {
        let ghost rest = members@.skip(i as int);
        assert(rest[0] == members@[i as int]);
        assert(rest.drop_first() =~= members@.skip(i + 1));
        match check_group(&members[i].0, &members[i].1) {
            Err(e) => {
                return Err(e);
            },
            Ok(g) => {
                let ghost prev = groups@;
                groups.push(g);
                proof {
                    assert(groups_view(groups@) == groups_view(prev).push(group_view(g)));
                    match groups_checked(members@.skip(i + 1)) {
                        Ok(more) => {
                            assert(groups_view(prev) + (seq![group_view(g)] + more) =~= groups_view(groups@) + more);
                        },
                        Err(_) => {},
                    }
                }
            },
        }
        i += 1;
    }
    assert(members@.skip(i as int).len() == 0);
    assert(groups_view(groups@) + Seq::<GroupView>::empty() =~= groups_view(groups@));
    let mut rules: Vec<ScoreRuleSchema> = Vec::new();
    match get(root, "score_rules") {
        None => {},
        Some(rv) => {
            let items = match as_array(Some(rv)) {
                None => {
                    return Err(String::from_str("score_rules 必须是数组"));
                },
                Some(a) => a,
            };
            let mut j: usize = 0;
            assert(items@.skip(0) == items@);
            while j < items.len()
                invariant
                    j <= items.len(),
                    json_as_object(json_get(*root, "tag_groups"@)) == Some(members@),
                    members@.len() > 0,
                    groups_checked(members@) == Ok::<Seq<GroupView>, Seq<char>>(groups_view(groups@)),
                    json_get(*root, "score_rules"@) == Some(*rv),
                    json_as_array(Some(*rv)) == Some(items@),
                    rules_checked(items@) == match rules_checked(items@.skip(j as int)) {
                        Ok(rest) => Ok(rules_view(rules@) + rest),
                        Err(e) => Err(e),
                    },
                decreases items.len() - j,
            {
                let ghost rest = items@.skip(j as int);
                assert(rest[0] == items@[j as int]);
                assert(rest.drop_first() =~= items@.skip(j + 1));
                match check_rule(&items[j]) {
                    Err(e) => {
                        return Err(e);
                    },
                    Ok(rule) => {
                        let ghost prev = rules@;
                        rules.push(rule);
                        proof {
                            assert(rules_view(rules@) == rules_view(prev).push(rule_view(rule)));
                            match rules_checked(items@.skip(j + 1)) {
                                Ok(more) => {
                                    assert(rules_view(prev) + (seq![rule_view(rule)] + more) =~= rules_view(rules@) + more);
                                },
                                Err(_) => {},
                            }
                        }
                    },
                }
                j += 1;
            }
            assert(items@.skip(j as int).len() == 0);
            assert(rules_view(rules@) + Seq::<RuleView>::empty() =~= rules_view(rules@));
        },
    }
    Ok(AiTextSchema { tag_groups: groups, score_rules: rules })
}

/// The elements chosen in a group: the array under the group's name in `tags`, or nothing.
pub open spec fn group_choice(tags: Seq<(String, JsonValue)>, group: GroupView) -> Seq<JsonValue> {
    match json_as_array(member(tags, group.0)) {
        Some(items) => items,
        None => Seq::empty(),
    }
}

/// The tags chosen in one group, checked: each must be a string among the group's tags.
pub open spec fn chosen_tags_checked(group: GroupView, items: Seq<JsonValue>) -> Result<Seq<Seq<char>>, Seq<char>>
    decreases items.len(),
{
    if items.len() == 0 {
        Ok(Seq::empty())
    } else {
        match json_as_str(Some(items[0])) {
            None => Err("标签栏 "@ + group.0 + " 中存在非字符串标签"@),
            Some(t) => if !group.2.contains(t) {
                Err("标签 "@ + t + " 不属于标签栏 "@ + group.0)
            } else {
                match chosen_tags_checked(group, items.drop_first()) {
                    Err(e) => Err(e),
                    Ok(rest) => Ok(seq![t] + rest),
                }
            },
        }
    }
}

/// The tags chosen in all groups, group after group; a group may not have more than its
/// maximum chosen.
pub open spec fn chosen_labels_checked(tags: Seq<(String, JsonValue)>, groups: Seq<GroupView>) -> Result<Seq<Seq<char>>, Seq<char>>
    decreases groups.len(),
{
    if groups.len() == 0 {
        Ok(Seq::empty())
    } else {
        let g = groups[0];
        let items = group_choice(tags, g);
        if items.len() > g.1 {
            Err("标签栏 "@ + g.0 + " 选择数量超过 max_select"@)
        } else {
            match chosen_tags_checked(g, items) {
                Err(e) => Err(e),
                Ok(ts) => match chosen_labels_checked(tags, groups.drop_first()) {
                    Err(e) => Err(e),
                    Ok(rest) => Ok(ts + rest),
                },
            }
        }
    }
}

/// The rule that a name refers to: the last rule of that name.
pub open spec fn rule_named(rules: Seq<RuleView>, name: Seq<char>) -> Option<RuleView>
    decreases rules.len(),
{
    if rules.len() == 0 {
        None
    } else if rules.last().0 == name {
        Some(rules.last())
    } else {
        rule_named(rules.drop_last(), name)
    }
}

/// A change kept within what its rule allows: 0..=max for additions, -max..=0 for subtractions.
pub open spec fn clamped_delta(direction: ScoreDirection, delta: int, max: int) -> int {
    match direction {
        ScoreDirection::Add => if delta < 0 {
            0
        } else if delta > max {
            max
        } else {
            delta
        },
        ScoreDirection::Subtract => if delta < -max {
            -max
        } else if delta > 0 {
            0
        } else {
            delta
        },
    }
}

/// The sum of the score changes of `details`, each kept within its rule; a detail without a
/// rule name, without an integer change, or naming no rule is an error.
pub open spec fn score_details_checked(rules: Seq<RuleView>, details: Seq<JsonValue>) -> Result<int, Seq<char>>
    decreases details.len(),
{
    if details.len() == 0 {
        Ok(0)
    } else {
        let d = details[0];
        match json_as_str(json_get(d, "rule"@)) {
            None => Err("score.details[].rule 必须是字符串"@),
            Some(name) => match json_as_i64(json_get(d, "delta"@)) {
                None => Err("评分项 "@ + name + " 的 delta 必须是整数"@),
                Some(delta) => match rule_named(rules, name) {
                    None => Err("评分项 "@ + name + " 不在 score_rules 中"@),
                    Some(rule) => match score_details_checked(rules, details.drop_first()) {
                        Err(e) => Err(e),
                        Ok(rest) => Ok(clamped_delta(rule.1, (delta as i32) as int, rule.2) + rest),
                    },
                },
            },
        }
    }
}

/// The final score: 50 plus the changes, kept within 0..=100.
pub open spec fn final_score(sum: int) -> int {
    if 50 + sum < 0 {
        0
    } else if 50 + sum > 100 {
        100
    } else {
        50 + sum
    }
}

/// The model's final answer read against the settings: its labels (repeats dropped), its
/// score and its evidence summary (empty when missing).
pub open spec fn final_result_checked(value: JsonValue, groups: Seq<GroupView>, rules: Seq<RuleView>) -> Result<(Seq<Seq<char>>, int, Seq<char>), Seq<char>> {
    match json_as_object(json_get(value, "tags"@)) {
        None => Err("final.tags 必须是对象"@),
        Some(tags) => match chosen_labels_checked(tags, groups) {
            Err(e) => Err(e),
            Ok(labels) => match json_get(value, "score"@) {
                None => Err("final.score 缺失"@),
                Some(score) => match json_as_array(json_get(score, "details"@)) {
                    None => Err("score.details 必须是数组"@),
                    Some(details) => match score_details_checked(rules, details) {
                        Err(e) => Err(e),
                        Ok(sum) => Ok((dedup(labels), final_score(sum), match json_as_str(json_get_opt(json_get(value, "evidence"@), "summary"@)) {
                            Some(s) => s,
                            None => Seq::empty(),
                        })),
                    },
                },
            },
        },
    }
}

/// The tags chosen in one group, checked.
fn check_chosen_tags(group: &TagGroupSchema, items: &Vec<JsonValue>) -> (r: Result<Vec<String>, String>)
    ensures
        match chosen_tags_checked(group_view(*group), items@) {
            Ok(ts) => r matches Ok(v) && views(v@) == ts,
            Err(e) => r matches Err(m) && m@ == e,
        },
{
    let mut out: Vec<String> = Vec::new();
    let mut i: usize = 0;
    assert(items@.skip(0) == items@);
    while i < items.len()
        invariant
            i <= items.len(),
            chosen_tags_checked(group_view(*group), items@) == match chosen_tags_checked(group_view(*group), items@.skip(i as int)) {
                Ok(rest) => Ok(views(out@) + rest),
                Err(e) => Err(e),
            },
        decreases items.len() - i,
    {
        let ghost rest = items@.skip(i as int);
        assert(rest[0] == items@[i as int]);
        assert(rest.drop_first() =~= items@.skip(i + 1));
        match as_str(Some(&items[i])) {
            None => {
                return Err(concat3("标签栏 ", group.name.as_str(), " 中存在非字符串标签"));
            },
            Some(t) => {
                if !contains_string(&group.tags, t) {
                    return Err(concat4("标签 ", t.as_str(), " 不属于标签栏 ", group.name.as_str()));
                }
                let c = t.clone();
                let ghost prev = out@;
                out.push(c);
                proof {
                    assert(views(out@) == views(prev).push(c@));
                    match chosen_tags_checked(group_view(*group), items@.skip(i + 1)) {
                        Ok(more) => {
                            assert(views(prev) + (seq![c@] + more) =~= views(out@) + more);
                        },
                        Err(_) => {},
                    }
                }
            },
        }
        i += 1;
    }
    assert(items@.skip(i as int).len() == 0);
    assert(views(out@) + Seq::<Seq<char>>::empty() =~= views(out@));
    Ok(out)
}

/// The last rule named `name`.
fn find_rule<'a>(rules: &'a Vec<ScoreRuleSchema>, name: &String) -> (r: Option<&'a ScoreRuleSchema>)
    ensures
        match r {
            Some(x) => rule_named(rules_view(rules@), name@) == Some(rule_view(*x)),
            None => rule_named(rules_view(rules@), name@) is None,
        },
        r matches Some(x) ==> exists|i: int| 0 <= i < rules@.len() && *x == rules@[i],
{
    let mut i: usize = rules.len();
    assert(rules_view(rules@).take(i as int) == rules_view(rules@));
    while i > 0
        invariant
            i <= rules.len(),
            rule_named(rules_view(rules@), name@) == rule_named(rules_view(rules@).take(i as int), name@),
        decreases i,
    {
        let ghost t = rules_view(rules@).take(i as int);
        assert(t.last() == rule_view(rules@[i - 1]));
        assert(t.drop_last() == rules_view(rules@).take(i - 1));
        if rules[i - 1].name == *name {
            return Some(&rules[i - 1]);
        }
        i -= 1;
    }
    None
}

/// `delta` kept within what a rule of the given direction and maximum allows.
fn clamp_delta(direction: ScoreDirection, delta: i32, max: i32) -> (r: i32)
    requires
        max >= 0,
    ensures
        r as int == clamped_delta(direction, delta as int, max as int),
{
    match direction {
        ScoreDirection::Add => if delta < 0 {
            0
        } else if delta > max {
            max
        } else {
            delta
        },
        ScoreDirection::Subtract => if delta < -max {
            -max
        } else if delta > 0 {
            0
        } else {
            delta
        },
    }
}

/// Reads the model's final answer (already parsed as JSON) against the settings: the chosen
/// labels must belong to their groups and respect each group's maximum, the score changes
/// must name rules; the result holds the labels, the score and the evidence summary.
pub fn parse_final_result(value: &JsonValue, schema: &AiTextSchema) -> (r: Result<AiAnalysisResult, String>)
    requires
        forall|i: int| 0 <= i < schema.score_rules@.len() ==> (#[trigger] schema.score_rules@[i]).max_delta >= 0,
    ensures
        match final_result_checked(*value, groups_view(schema.tag_groups@), rules_view(schema.score_rules@)) {
            Ok((labels, score, summary)) => r matches Ok(res) && views(res.labels@) == labels
                && res.score as int == score && res.evidence_summary@ == summary,
            Err(e) => r matches Err(m) && m@ == e,
        },
{
    let ghost gv = groups_view(schema.tag_groups@);
    let ghost rv = rules_view(schema.score_rules@);
    let tags = match as_object(get(value, "tags")) {
        None => {
            return Err(String::from_str("final.tags 必须是对象"));
        },
        Some(t) => t,
    };
    let empty: Vec<JsonValue> = Vec::new();
    let mut chosen: Vec<String> = Vec::new();
    let mut g: usize = 0;
    assert(gv.skip(0) == gv);
    while g < schema.tag_groups.len()
        invariant
            g <= schema.tag_groups.len(),
            gv == groups_view(schema.tag_groups@),
            json_as_object(json_get(*value, "tags"@)) == Some(tags@),
            empty@.len() == 0,
            chosen_labels_checked(tags@, gv) == match chosen_labels_checked(tags@, gv.skip(g as int)) {
                Ok(rest) => Ok(views(chosen@) + rest),
                Err(e) => Err(e),
            },
        decreases schema.tag_groups.len() - g,
    {
        let group = &schema.tag_groups[g];
        let ghost rest = gv.skip(g as int);
        assert(rest[0] == group_view(*group));
        assert(rest.drop_first() =~= gv.skip(g + 1));
        let items: &Vec<JsonValue> = match as_array(member_of(tags, group.name.as_str())) {
            Some(a) => a,
            None => &empty,
        };
        assert(items@ == group_choice(tags@, group_view(*group)));
        if items.len() > group.max_select {
            return Err(concat3("标签栏 ", group.name.as_str(), " 选择数量超过 max_select"));
        }
        match check_chosen_tags(group, items) {
            Err(e) => {
                return Err(e);
            },
            Ok(mut ts) => {
                let ghost prev = chosen@;
                let ghost tv = views(ts@);
                chosen.append(&mut ts);
                proof {
                    assert(views(chosen@) =~= views(prev) + tv);
                    match chosen_labels_checked(tags@, gv.skip(g + 1)) {
                        Ok(more) => {
                            assert(views(prev) + (tv + more) =~= views(chosen@) + more);
                        },
                        Err(_) => {},
                    }
                }
            },
        }
        g += 1;
    }
    assert(gv.skip(g as int).len() == 0);
    assert(views(chosen@) + Seq::<Seq<char>>::empty() =~= views(chosen@));
    let score = match get(value, "score") {
        None => {
            return Err(String::from_str("final.score 缺失"));
        },
        Some(s) => s,
    };
    let details = match as_array(get(score, "details")) {
        None => {
            return Err(String::from_str("score.details 必须是数组"));
        },
        Some(d) => d,
    };
    let mut sum: i128 = 0;
    let mut k: usize = 0;
    assert(details@.skip(0) == details@);
    while k < details.len()
        invariant
            k <= details.len(),
            rv == rules_view(schema.score_rules@),
            gv == groups_view(schema.tag_groups@),
            json_as_object(json_get(*value, "tags"@)) == Some(tags@),
            chosen_labels_checked(tags@, gv) == Ok::<Seq<Seq<char>>, Seq<char>>(views(chosen@)),
            json_get(*value, "score"@) == Some(*score),
            json_as_array(json_get(*score, "details"@)) == Some(details@),
            forall|i: int| 0 <= i < schema.score_rules@.len() ==> (#[trigger] schema.score_rules@[i]).max_delta >= 0,
            -(k as int) * 2147483648 <= sum <= (k as int) * 2147483648,
            score_details_checked(rv, details@) == match score_details_checked(rv, details@.skip(k as int)) {
                Ok(rest) => Ok(sum as int + rest),
                Err(e) => Err(e),
            },
        decreases details.len() - k,
    {
        let d = &details[k];
        let ghost rest = details@.skip(k as int);
        assert(rest[0] == details@[k as int]);
        assert(rest.drop_first() =~= details@.skip(k + 1));
        let name = match as_str(get(d, "rule")) {
            None => {
                return Err(String::from_str("score.details[].rule 必须是字符串"));
            },
            Some(n) => n,
        };
        let delta = match as_i64(get(d, "delta")) {
            None => {
                return Err(concat3("评分项 ", name.as_str(), " 的 delta 必须是整数"));
            },
            Some(x) => x,
        };
        let rule = match find_rule(&schema.score_rules, name) {
            None => {
                return Err(concat3("评分项 ", name.as_str(), " 不在 score_rules 中"));
            },
            Some(r) => r,
        };
        let c = clamp_delta(rule.direction, #[verifier::truncate] (delta as i32), rule.max_delta);
        proof {
            assert(-2147483648 <= c <= 2147483647);
            assert((k as int + 1) * 2147483648 == (k as int) * 2147483648 + 2147483648) by (nonlinear_arith);
            assert(k < usize::MAX);
        }
        sum = sum + c as i128;
        k += 1;
    }
    assert(details@.skip(k as int).len() == 0);
    let total = 50 + sum;
    let score_value: u8 = if total < 0 {
        0
    } else if total > 100 {
        100
    } else {
        total as u8
    };
    let summary = match as_str(get_opt(get(value, "evidence"), "summary")) {
        Some(s) => s.clone(),
        None => String::new(),
    };
    let labels = dedup_strings(chosen);
    Ok(AiAnalysisResult { labels, score: score_value, evidence_summary: summary })
}

/// What the model answered: a final result, or a request for more samples with its reason and
/// what it has gathered so far.
#[derive(Debug)]
pub enum AiModelDecision {
    Final(AiAnalysisResult),
    NeedMore { reason: String, working_summary: JsonValue },
}

/// The `status` text of a model answer (empty when missing).
pub open spec fn status_text(value: JsonValue) -> Seq<char> {
    match json_as_str(json_get(value, "status"@)) {
        Some(s) => s,
        None => Seq::empty(),
    }
}

/// The value of the member `key` of an object, moved out of it.
fn take_member(value: JsonValue, key: &str) -> (r: Option<JsonValue>)
    ensures
        r == json_get(value, key@),
{
    match value {
        JsonValue::Object(members) => {
            let mut members = members;
            let ghost all = members@;
            assert(json_get(value, key@) == member(all, key@));
            let k = String::from_str(key);
            let mut i: usize = 0;
            assert(all.skip(0) == all);
            while i < members.len()
                invariant
                    i <= members.len(),
                    members@ == all,
                    k@ == key@,
                    member(all, key@) == member(all.skip(i as int), key@),
                    json_get(value, key@) == member(all, key@),
                decreases members.len() - i,
            {
                let ghost rest = all.skip(i as int);
                assert(rest[0] == all[i as int]);
                assert(rest.drop_first() =~= all.skip(i + 1));
                if members[i].0 == k {
                    assert(member(rest, key@) == Some(all[i as int].1));
                    let (_, v) = members.remove(i);
                    assert(v == all[i as int].1);
                    return Some(v);
                }
                i += 1;
            }
            assert(all.skip(i as int).len() == 0);
            None
        },
        _ => None,
    }
}

/// Reads a model answer (already parsed as JSON): `final` is checked against the settings,
/// `need_more_samples` is accepted only when a final answer is not required.
pub fn decision_from_value(value: JsonValue, schema: &AiTextSchema, force_final: bool) -> (r: Result<AiModelDecision, String>)
    requires
        forall|i: int| 0 <= i < schema.score_rules@.len() ==> (#[trigger] schema.score_rules@[i]).max_delta >= 0,
    ensures
        if status_text(value) == "final"@ {
            match final_result_checked(value, groups_view(schema.tag_groups@), rules_view(schema.score_rules@)) {
                Ok((labels, score, summary)) => r matches Ok(AiModelDecision::Final(res)) && views(res.labels@) == labels
                    && res.score as int == score && res.evidence_summary@ == summary,
                Err(e) => r matches Err(m) && m@ == e,
            }
        } else if status_text(value) == "need_more_samples"@ && !force_final {
            r matches Ok(AiModelDecision::NeedMore { reason, working_summary }) && reason@ == match json_as_str(json_get(value, "reason"@)) {
                Some(t) => t,
                None => "证据不足"@,
            } && working_summary == match json_get(value, "working_summary"@) {
                Some(w) => w,
                None => JsonValue::Null,
            }
        } else if status_text(value) == "need_more_samples"@ {
            r matches Err(m) && m@ == "force_final=true 时不能请求更多样本"@
        } else {
            r matches Err(m) && m@ == "未知 status: "@ + status_text(value)
        },
{
    let status = match as_str(get(&value, "status")) {
        Some(s) => s.clone(),
        None => String::new(),
    };
    if str_eq(status.as_str(), "final") {
        return match parse_final_result(&value, schema) {
            Ok(res) => Ok(AiModelDecision::Final(res)),
            Err(e) => Err(e),
        };
    }
    if str_eq(status.as_str(), "need_more_samples") {
        if force_final {
            return Err(String::from_str("force_final=true 时不能请求更多样本"));
        }
        let reason = match as_str(get(&value, "reason")) {
            Some(t) => t.clone(),
            None => String::from_str("证据不足"),
        };
        let working_summary = match take_member(value, "working_summary") {
            Some(w) => w,
            None => JsonValue::Null,
        };
        return Ok(AiModelDecision::NeedMore { reason, working_summary });
    }
    let mut m = String::from_str("未知 status: ");
    m.append(status.as_str());
    Err(m)
}

/// The last position of `c` in `s`, or -1.
pub open spec fn last_index_of(s: Seq<char>, c: char) -> int
    decreases s.len(),
{
    if s.len() == 0 {
        -1
    } else if s.last() == c {
        s.len() - 1
    } else {
        last_index_of(s.drop_last(), c)
    }
}

/// The text from the first `{` to the last `}` of `raw`, when both exist in that order.
pub open spec fn json_object_text(raw: Seq<char>) -> Option<Seq<char>> {
    let start = index_of_from(raw, '{', 0);
    let end = last_index_of(raw, '}');
    if start >= raw.len() || end < 0 || end <= start {
        None
    } else {
        Some(raw.subrange(start, end + 1))
    }
}

proof fn lemma_last_index_of(s: Seq<char>, c: char)
    ensures
        -1 <= last_index_of(s, c) < s.len(),
        last_index_of(s, c) >= 0 ==> s[last_index_of(s, c)] == c,
        forall|k: int| last_index_of(s, c) < k < s.len() ==> s[k] != c,
    decreases s.len(),
{
    if s.len() > 0 && s.last() != c {
        lemma_last_index_of(s.drop_last(), c);
        assert forall|k: int| last_index_of(s, c) < k < s.len() implies s[k] != c by {
            if k < s.len() - 1 {
                assert(s.drop_last()[k] == s[k]);
            }
        }
    }
}

/// The JSON object inside a model's raw answer: from its first `{` to its last `}`.
pub fn extract_json_object(raw: &str) -> (r: Option<String>)
    ensures
        match json_object_text(raw@) {
            Some(t) => r matches Some(s) && s@ == t,
            None => r is None,
        },
{
    let v = chars_of(raw);
    let start = find_char(&v, '{', 0);
    proof {
        lemma_index_of_from_bounds(v@, '{', 0);
    }
    if start == v.len() {
        return None;
    }
    let mut end: usize = v.len();
    assert(v@.take(v.len() as int) =~= v@);
    while end > 0 && v[end - 1] != '}'
        invariant
            end <= v.len(),
            v@ == raw@,
            last_index_of(v@, '}') == last_index_of(v@.take(end as int), '}'),
        decreases end,
    {
        assert(v@.take(end as int).drop_last() == v@.take(end - 1));
        end -= 1;
    }
    proof {
        lemma_last_index_of(v@, '}');
        if end > 0 {
            assert(v@.take(end as int).last() == v@[end - 1]);
        } else {
            assert(v@.take(0) =~= Seq::<char>::empty());
        }
    }
    if end == 0 || end - 1 <= start {
        return None;
    }
    Some(string_of_range(&v, start, end))
}

/// The label that carries a score: `point` and the score (at most 100) in three digits.
pub open spec fn point_label_text(score: nat) -> Seq<char> {
    "point"@ + zero_padded(if score > 100 { 100 } else { score }, 3)
}

/// The label that records the AI score of a video, such as `point075`.
pub fn point_label(score: u8) -> (r: String)
    ensures
        r@ == point_label_text(score as nat),
{
    let capped: u8 = if score > 100 { 100 } else { score };
    let digits = zero_padded_chars(capped as u64, 3);
    let mut s = String::from_str("point");
    let d = string_of(&digits);
    s.append(d.as_str());
    s
}

/// `text` cut to its first `max_chars` characters, with `...` when something was cut.
pub open spec fn compacted_for_log(text: Seq<char>, max_chars: nat) -> Seq<char> {
    if text.len() > max_chars {
        text.take(max_chars as int) + "..."@
    } else {
        text
    }
}

/// Shortens a log line to `max_chars` characters followed by `...` when it is longer.
pub fn compact_for_log(text: &str, max_chars: usize) -> (r: String)
    ensures
        r@ == compacted_for_log(text@, max_chars as nat),
{
    let v = chars_of(text);
    if v.len() > max_chars {
        let mut s = string_of_range(&v, 0, max_chars);
        s.append("...");
        s
    } else {
        string_of(&v)
    }
}

/// `name` shortened to `max_chars` characters: unchanged when short enough, cut when
/// `max_chars` is at most 8, otherwise its head and tail around `...`.
pub open spec fn compacted_name(name: Seq<char>, max_chars: nat) -> Seq<char> {
    if name.len() <= max_chars {
        name
    } else if max_chars <= 8 {
        name.take(max_chars as int)
    } else {
        let head = (max_chars - 3) / 2;
        let tail = max_chars - 3 - head;
        name.take(head) + "..."@ + name.skip(name.len() - tail)
    }
}

/// Shortens a name for display in `max_chars` characters.
pub fn compact_name(name: &str, max_chars: usize) -> (r: String)
    ensures
        r@ == compacted_name(name@, max_chars as nat),
{
    let v = chars_of(name);
    if v.len() <= max_chars {
        return string_of(&v);
    }
    if max_chars <= 8 {
        return string_of_range(&v, 0, max_chars);
    }
    let head = (max_chars - 3) / 2;
    let tail = max_chars - 3 - head;
    let mut s = string_of_range(&v, 0, head);
    s.append("...");
    let end = string_of_range(&v, v.len() - tail, v.len());
    s.append(end.as_str());
    s
}

/// `i * (total - 1) / (count - 1)` rounded to the nearest integer, halves up.
pub open spec fn rounded_position(i: nat, total: nat, count: nat) -> nat {
    let p = i * (total - 1) as nat;
    let c = (count - 1) as nat;
    p / c + if 2 * (p % c) >= c { 1nat } else { 0nat }
}

/// The `count` positions, from 0 to `total - 1`, spread evenly: position `i` is
/// `rounded_position(i, total, count)`; a single position is the middle one.
pub open spec fn evenly_spaced(total: nat, count: nat) -> Seq<nat> {
    if total == 0 || count == 0 {
        Seq::empty()
    } else if count == 1 {
        seq![total / 2]
    } else {
        Seq::new(count, |i: int| rounded_position(i as nat, total, count))
    }
}

/// The positions of `count` items spread evenly over `total`.
pub fn evenly_spaced_indices(total: usize, count: usize) -> (r: Vec<usize>)
    ensures
        r@.len() == evenly_spaced(total as nat, count as nat).len(),
        forall|i: int| 0 <= i < r@.len() ==> r@[i] as nat == #[trigger] evenly_spaced(total as nat, count as nat)[i],
{
    let mut out: Vec<usize> = Vec::new();
    if total == 0 || count == 0 {
        return out;
    }
    if count == 1 {
        out.push(total / 2);
        return out;
    }
    let t = (total - 1) as u128;
    let c = (count - 1) as u128;
    let mut i: usize = 0;
    while i < count
        invariant
            i <= count,
            count >= 2,
            total >= 1,
            t == total - 1,
            c == count - 1,
            out@.len() == i,
            forall|k: int| 0 <= k < i ==> out@[k] as nat == rounded_position(k as nat, total as nat, count as nat),
        decreases count - i,
    {
        let ii = i as u128;
        proof {
            assert(ii * t <= c * t) by (nonlinear_arith)
                requires ii <= c, t >= 0;
            assert(c * t <= 0xFFFF_FFFF_FFFF_FFFFu128 * 0xFFFF_FFFF_FFFF_FFFFu128) by (nonlinear_arith)
                requires c <= 0xFFFF_FFFF_FFFF_FFFFu128, t <= 0xFFFF_FFFF_FFFF_FFFFu128;
        }
        let p = ii * t;
        let q = p / c;
        let rem = p % c;
        proof {
            assert(q <= t) by (nonlinear_arith)
                requires q == p / c, p <= c * t, c >= 1;
        }
        let value: u128 = if 2 * rem >= c { q + 1 } else { q };
        out.push(value as usize);
        i += 1;
    }
    out
}

/// Reads the capabilities of the model service from its `/props` answer: `modalities.vision`
/// and `modalities.audio` (false when missing), and `model_alias`, or else `model_path`, as the
/// name (`local-model` when it is not a string).
pub fn service_props_from_json(value: &JsonValue) -> (r: AiServiceProps)
    ensures
        r.vision == match json_as_bool(json_get_opt(json_get(*value, "modalities"@), "vision"@)) {
            Some(b) => b,
            None => false,
        },
        r.audio == match json_as_bool(json_get_opt(json_get(*value, "modalities"@), "audio"@)) {
            Some(b) => b,
            None => false,
        },
        r.model_alias@ == match json_as_str(match json_get(*value, "model_alias"@) {
            Some(a) => Some(a),
            None => json_get(*value, "model_path"@),
        }) {
            Some(s) => s,
            None => "local-model"@,
        },
{
    let modalities = get(value, "modalities");
    let vision = match as_bool(get_opt(modalities, "vision")) {
        Some(b) => b,
        None => false,
    };
    let audio = match as_bool(get_opt(modalities, "audio")) {
        Some(b) => b,
        None => false,
    };
    let name_value = match get(value, "model_alias") {
        Some(a) => Some(a),
        None => get(value, "model_path"),
    };
    let model_alias = match as_str(name_value) {
        Some(s) => s.clone(),
        None => String::from_str("local-model"),
    };
    AiServiceProps { vision, audio, model_alias }
}

/// The answer text of a model reply: the JSON object inside it, or the error reported when
/// there is none.
pub fn model_json_text(raw: &str) -> (r: Result<String, String>)
    ensures
        match json_object_text(raw@) {
            Some(t) => r matches Ok(s) && s@ == t,
            None => r matches Err(e) && e@ == "模型输出中找不到 JSON 对象"@,
        },
{
    match extract_json_object(raw) {
        Some(t) => Ok(t),
        None => Err(String::from_str("模型输出中找不到 JSON 对象")),
    }
}

/// What the settings text holds before the user edits it.
pub const DEFAULT_AI_TEXT_SETTINGS: &'static str = r#"{
  "tag_groups": {
    "视频内容": {
      "max_select": 3,
      "tags": ["风景", "人文", "美食"]
    },
    "视频画质": {
      "max_select": 1,
      "tags": ["老电影", "清晰", "模糊"]
    },
    "声音类型": {
      "max_select": 2,
      "tags": ["无人声", "人声", "音乐", "嘈杂"]
    }
  },
  "score_rules": [
    {
      "name": "画面清晰",
      "direction": "add",
      "max_delta": 15
    },
    {
      "name": "声音细节丰富",
      "direction": "add",
      "max_delta": 10
    },
    {
      "name": "声音嘈杂",
      "direction": "subtract",
      "max_delta": 20
    }
  ]
}"#;

/// The settings text offered before the user writes their own.
pub fn default_ai_text_settings() -> (r: String)
    ensures
        r@ == DEFAULT_AI_TEXT_SETTINGS@,
{
    String::from_str(DEFAULT_AI_TEXT_SETTINGS)
}

/// What one line of the model's event stream carries: nothing to read, the end marker, or a
/// data payload.
#[derive(Debug)]
pub enum StreamLine {
    Skip,
    Done,
    Data(String),
}

/// The tag that opens a data line of the event stream.
pub open spec fn data_prefix() -> Seq<char> {
    seq!['d', 'a', 't', 'a', ':']
}

/// Whether `s` opens with the data tag.
pub open spec fn starts_with_data(s: Seq<char>) -> bool {
    s.len() >= 5 && s.take(5) == data_prefix()
}

/// `s` with every leading data tag removed (`trim_start_matches("data:")`).
pub open spec fn without_data_prefixes(s: Seq<char>) -> Seq<char>
    decreases s.len(),
{
    if starts_with_data(s) {
        without_data_prefixes(s.skip(5))
    } else {
        s
    }
}

/// The payload of a stream line that carries one.
pub open spec fn stream_payload(line: Seq<char>) -> Seq<char> {
    trimmed(without_data_prefixes(trimmed(line)))
}

fn has_data_prefix(v: &Vec<char>, pos: usize) -> (r: bool)
    requires
        pos <= v.len(),
    ensures
        r == starts_with_data(v@.skip(pos as int)),
{
    if v.len() - pos < 5 {
        return false;
    }
    let r = v[pos] == 'd' && v[pos + 1] == 'a' && v[pos + 2] == 't' && v[pos + 3] == 'a' && v[pos + 4] == ':';
    proof {
        let t = v@.skip(pos as int).take(5);
        if r {
            assert(t =~= data_prefix());
        } else if t == data_prefix() {
            assert(t[0] == 'd' && t[1] == 'a' && t[2] == 't' && t[3] == 'a' && t[4] == ':');
            assert(false);
        }
    }
    r
}

/// Reads one line of the model's event stream: lines that do not start with `data:` (after
/// trimming) are skipped, `[DONE]` ends the stream, anything else is a payload.
pub fn read_stream_line(line: &str) -> (r: StreamLine)
    ensures
        !starts_with_data(trimmed(line@)) ==> r is Skip,
        starts_with_data(trimmed(line@)) && stream_payload(line@) == "[DONE]"@ ==> r is Done,
        starts_with_data(trimmed(line@)) && stream_payload(line@) != "[DONE]"@ ==> (r matches StreamLine::Data(d)
            && d@ == stream_payload(line@)),
{
    let t = trim(line);
    let v = chars_of(t.as_str());
    if !has_data_prefix(&v, 0) {
        assert(v@.skip(0) == v@);
        return StreamLine::Skip;
    }
    let mut pos: usize = 0;
    assert(v@.skip(0) == v@);
    while has_data_prefix(&v, pos)
        invariant
            pos <= v.len(),
            without_data_prefixes(v@) == without_data_prefixes(v@.skip(pos as int)),
        decreases v.len() - pos,
    {
        assert(v@.skip(pos as int).skip(5) =~= v@.skip(pos + 5));
        pos += 5;
    }
    assert(v@.subrange(pos as int, v.len() as int) =~= v@.skip(pos as int));
    let rest = string_of_range(&v, pos, v.len());
    let d = trim(rest.as_str());
    if str_eq(d.as_str(), "[DONE]") {
        StreamLine::Done
    } else {
        StreamLine::Data(d)
    }
}

/// Element `0` of a value, as a JSON pointer reads it: the first element of an array, or the
/// member named `0` of an object.
pub open spec fn json_at_zero(v: Option<JsonValue>) -> Option<JsonValue> {
    match v {
        Some(JsonValue::Array(items)) => if items@.len() > 0 {
            Some(items@[0])
        } else {
            None
        },
        Some(JsonValue::Object(members)) => member(members@, "0"@),
        _ => None,
    }
}

/// The text that a stream payload adds to the answer: `/choices/0/delta/content`, or else
/// `/choices/0/message/content`, when it is a string.
pub open spec fn stream_delta_text(v: JsonValue) -> Option<Seq<char>> {
    let choice = json_at_zero(json_get(v, "choices"@));
    match json_as_str(json_get_opt(json_get_opt(choice, "delta"@), "content"@)) {
        Some(t) => Some(t),
        None => json_as_str(json_get_opt(json_get_opt(choice, "message"@), "content"@)),
    }
}

fn at_zero(v: Option<&JsonValue>) -> (r: Option<&JsonValue>)
    ensures
        match r {
            Some(x) => json_at_zero(match v { Some(y) => Some(*y), None => None }) == Some(*x),
            None => json_at_zero(match v { Some(y) => Some(*y), None => None }) is None,
        },
{
    match v {
        Some(JsonValue::Array(items)) => {
            if items.len() > 0 {
                Some(&items[0])
            } else {
                None
            }
        },
        Some(JsonValue::Object(members)) => member_of(members, "0"),
        _ => None,
    }
}

/// The answer text carried by one parsed stream payload.
pub fn stream_delta(value: &JsonValue) -> (r: Option<String>)
    ensures
        match stream_delta_text(*value) {
            Some(t) => r matches Some(s) && s@ == t,
            None => r is None,
        },
{
    let choice = at_zero(get(value, "choices"));
    match as_str(get_opt(get_opt(choice, "delta"), "content")) {
        Some(t) => Some(t.clone()),
        None => match as_str(get_opt(get_opt(choice, "message"), "content")) {
            Some(t) => Some(t.clone()),
            None => None,
        },
    }
}

/// The answer gathered from the stream so far, and the part of it not yet shown in the log.
pub struct StreamCollector {
    pub out: String,
    pub pending: String,
}

impl StreamCollector {
    /// Nothing gathered yet.
    pub fn new() -> (r: Self)
        ensures
            r.out@ == Seq::<char>::empty(),
            r.pending@ == Seq::<char>::empty(),
    {
        StreamCollector { out: String::new(), pending: String::new() }
    }

    /// Adds answer text. Once the part not yet logged reaches 160 characters or holds a line
    /// break, it is handed back (trimmed) for the log and starts anew.
    pub fn push_delta(&mut self, s: &str) -> (r: Option<String>)
        ensures
            final(self).out@ == old(self).out@ + s@,
            (old(self).pending@ + s@).len() >= 160 || (old(self).pending@ + s@).contains('\n') ==> (r matches Some(l)
                && l@ == trimmed(old(self).pending@ + s@) && final(self).pending@ == Seq::<char>::empty()),
            !((old(self).pending@ + s@).len() >= 160 || (old(self).pending@ + s@).contains('\n')) ==> (r is None
                && final(self).pending@ == old(self).pending@ + s@),
    {
        self.out.append(s);
        self.pending.append(s);
        let v = chars_of(self.pending.as_str());
        let nl = find_char(&v, '\n', 0);
        proof {
            lemma_index_of_from_bounds(v@, '\n', 0);
            if nl < v.len() {
                assert(v@[nl as int] == '\n');
            }
        }
        if v.len() >= 160 || nl < v.len() {
            let line = trim(self.pending.as_str());
            self.pending = String::new();
            Some(line)
        } else {
            None
        }
    }

    /// Ends the stream: the rest of the log text when it is not blank, and the whole answer, or
    /// an error when the answer is blank.
    pub fn finish(self) -> (r: (Option<String>, Result<String, String>))
        ensures
            trimmed(self.pending@).len() > 0 ==> (r.0 matches Some(l) && l@ == trimmed(self.pending@)),
            trimmed(self.pending@).len() == 0 ==> r.0 is None,
            trimmed(self.out@).len() > 0 ==> (r.1 matches Ok(o) && o@ == self.out@),
            trimmed(self.out@).len() == 0 ==> (r.1 matches Err(e) && e@ == "AI 返回内容为空"@),
    {
        let rest = trim(self.pending.as_str());
        let log = if !rest.as_str().is_empty() {
            Some(rest)
        } else {
            None
        };
        let whole = trim(self.out.as_str());
        let answer = if !whole.as_str().is_empty() {
            Ok(self.out)
        } else {
            Err(String::from_str("AI 返回内容为空"))
        };
        (log, answer)
    }
}

/// Standard base64 (RFC 4648 alphabet, `=` padding) of `bytes`, as the `base64` crate's
/// `general_purpose::STANDARD` engine writes it.
pub uninterp spec fn base64_standard(bytes: Seq<u8>) -> Seq<char>;

/// `base64::engine::general_purpose::STANDARD.encode`. The result is named by
/// `base64_standard`; its length is `4 * ceil(n / 3)`, the buffer size that the crate computes.
/// The crate panics when that size does not fit in `usize`, which `requires` rules out.
#[verifier::external_body]
fn base64_encode(bytes: &[u8]) -> (r: String)
    requires
        4 * ((bytes@.len() + 2) / 3) <= usize::MAX,
    ensures
        r@ == base64_standard(bytes@),
        r@.len() == 4 * ((bytes@.len() + 2) / 3),
{
    base64::Engine::encode(&base64::engine::general_purpose::STANDARD, bytes)
}

/// The base64 text of a clip sent to the model.
pub fn base64_text(bytes: &[u8]) -> (r: String)
    requires
        4 * ((bytes@.len() + 2) / 3) <= usize::MAX,
    ensures
        r@ == base64_standard(bytes@),
        r@.len() == 4 * ((bytes@.len() + 2) / 3),
{
    base64_encode(bytes)
}

/// The data URL under which a JPEG image is sent to the model.
pub fn image_data_url(jpeg: &[u8]) -> (r: String)
    requires
        4 * ((jpeg@.len() + 2) / 3) <= usize::MAX,
    ensures
        r@ == "data:image/jpeg;base64,"@ + base64_standard(jpeg@),
{
    let b64 = base64_encode(jpeg);
    let mut s = String::from_str("data:image/jpeg;base64,");
    s.append(b64.as_str());
    s
}

/// The two tries of one model call: after an answer that does not check, the call is made
/// once more with the error in the prompt.
pub struct RetryState {
    pub attempt: usize,
    pub last_error: String,
}

/// What follows a try: keep the decision, try again, or give up with the last error.
#[derive(Debug)]
pub enum RetryStep {
    Accept(AiModelDecision),
    Retry,
    GiveUp(String),
}

impl RetryState {
    /// Before the first try.
    pub fn new() -> (r: Self)
        ensures
            r.attempt == 0,
            r.last_error@ == Seq::<char>::empty(),
    {
        RetryState { attempt: 0, last_error: String::new() }
    }

    /// Whether the coming try repeats a failed one.
    pub fn is_retry(&self) -> (r: bool)
        ensures
            r == (self.attempt == 1),
    {
        self.attempt == 1
    }

    /// Takes the outcome of a try: a decision is kept; an error is remembered and leads to one
    /// more try, or, after the second, ends the call with that error.
    pub fn on_outcome(&mut self, outcome: Result<AiModelDecision, String>) -> (r: RetryStep)
        requires
            old(self).attempt <= 1,
        ensures
            match outcome {
                Ok(d) => r == RetryStep::Accept(d) && *final(self) == *old(self),
                Err(e) => final(self).last_error@ == e@ && if old(self).attempt == 0 {
                    r is Retry && final(self).attempt == 1
                } else {
                    r matches RetryStep::GiveUp(m) && m@ == e@ && final(self).attempt == 1
                },
            },
    {
        match outcome {
            Ok(d) => RetryStep::Accept(d),
            Err(e) => {
                self.last_error = e.clone();
                if self.attempt == 0 {
                    self.attempt = 1;
                    RetryStep::Retry
                } else {
                    RetryStep::GiveUp(e)
                }
            },
        }
    }
}

/// What the analysis of a video asks for next.
#[derive(Debug)]
pub enum AnalysisStep {
    /// Sample batch `batch_index` and ask the model; `force_final` when no batch follows.
    Sample { batch_index: usize, force_final: bool },
    /// Ask for a final answer from the gathered summary alone, with no new samples.
    FinalFromSummary,
    Done(AiAnalysisResult),
    Fail(String),
}

/// The batches of samples shown to the model for one video: the first covers the whole video,
/// each further one is taken when the model asks for more, and the last one must be answered
/// with a final result.
pub struct AnalysisPlan {
    pub max_batches: usize,
    pub batch_index: usize,
    pub summary_only: bool,
    pub finished: bool,
    pub working_summary: JsonValue,
}

impl AnalysisPlan {
    /// Whether the plan is in a state that its steps reach.
    pub open spec fn wf(&self) -> bool {
        self.batch_index < self.max_batches
    }

    /// How many more answers of the model the plan can take before it is over: none once
    /// finished, one while only the final request from the summary is left, else one per batch
    /// still to come (this one included) and the final request.
    pub open spec fn requests_left(&self) -> nat {
        if self.finished {
            0
        } else if self.summary_only {
            1
        } else {
            (self.max_batches - self.batch_index + 1) as nat
        }
    }

    /// A plan with `max_extra_batches` batches after the first, and its first step.
    pub fn new(max_extra_batches: usize) -> (r: (Self, AnalysisStep))
        requires
            max_extra_batches < usize::MAX,
        ensures
            r.0.wf(),
            r.0.requests_left() == max_extra_batches + 2,
            r.0.max_batches == max_extra_batches + 1,
            r.0.batch_index == 0,
            !r.0.summary_only,
            !r.0.finished,
            r.0.working_summary == JsonValue::Null,
            r.1 == (AnalysisStep::Sample { batch_index: 0, force_final: max_extra_batches == 0 }),
    {
        let plan = AnalysisPlan {
            max_batches: max_extra_batches + 1,
            batch_index: 0,
            summary_only: false,
            finished: false,
            working_summary: JsonValue::Null,
        };
        (plan, AnalysisStep::Sample { batch_index: 0, force_final: max_extra_batches == 0 })
    }

    /// Takes the model's decision for the step in progress. A final result ends the analysis.
    /// A request for more samples keeps its summary and leads to the next batch; after the last
    /// batch it leads to one final request from the summary alone, and a request for more
    /// samples there ends the analysis with an error.
    pub fn on_decision(&mut self, decision: AiModelDecision) -> (r: AnalysisStep)
        requires
            old(self).wf(),
            !old(self).finished,
        ensures
            final(self).wf(),
            final(self).max_batches == old(self).max_batches,
            final(self).requests_left() < old(self).requests_left(),
            final(self).finished <==> (r is Done || r is Fail),
            match decision {
                AiModelDecision::Final(res) => r == AnalysisStep::Done(res) && final(self).finished
                    && final(self).batch_index == old(self).batch_index,
                AiModelDecision::NeedMore { reason, working_summary } => if old(self).summary_only {
                    (r matches AnalysisStep::Fail(m) && m@ == "达到追加采样上限后，AI 仍未输出 final"@)
                        && final(self).finished && final(self).batch_index == old(self).batch_index
                } else if old(self).batch_index + 1 >= old(self).max_batches {
                    r is FinalFromSummary && final(self).summary_only && !final(self).finished
                        && final(self).working_summary == working_summary
                        && final(self).batch_index == old(self).batch_index
                } else {
                    r == (AnalysisStep::Sample {
                        batch_index: (old(self).batch_index + 1) as usize,
                        force_final: old(self).batch_index + 2 >= old(self).max_batches,
                    }) && !final(self).summary_only && !final(self).finished
                        && final(self).working_summary == working_summary
                        && final(self).batch_index == old(self).batch_index + 1
                },
            },
    {
        match decision {
            AiModelDecision::Final(res) => {
                self.finished = true;
                AnalysisStep::Done(res)
            },
            AiModelDecision::NeedMore { reason: _, working_summary } => {
                if self.summary_only {
                    self.finished = true;
                    return AnalysisStep::Fail(String::from_str("达到追加采样上限后，AI 仍未输出 final"));
                }
                self.working_summary = working_summary;
                if self.batch_index + 1 >= self.max_batches {
                    self.summary_only = true;
                    AnalysisStep::FinalFromSummary
                } else {
                    self.batch_index = self.batch_index + 1;
                    AnalysisStep::Sample {
                        batch_index: self.batch_index,
                        force_final: self.batch_index + 1 >= self.max_batches,
                    }
                }
            },
        }
    }
}

/// An analysis is over exactly when it has no answer of the model left to take; since each
/// answer lowers that count, a fresh plan with `n` extra batches ends after at most `n + 2`
/// answers.
pub proof fn law_analysis_ends(plan: AnalysisPlan)
    requires
        plan.wf(),
    ensures
        plan.finished <==> plan.requests_left() == 0,
{
}

proof fn lemma_rules_checked_bounded(items: Seq<JsonValue>)
    ensures
        rules_checked(items) matches Ok(rs) ==> forall|i: int| 0 <= i < rs.len() ==> 0 <= (#[trigger] rs[i]).2 <= 100,
    decreases items.len(),
{
    if items.len() > 0 {
        lemma_rules_checked_bounded(items.drop_first());
        if let Ok(rs) = rules_checked(items) {
            let rest = rules_checked(items.drop_first())->Ok_0;
            assert forall|i: int| 0 <= i < rs.len() implies 0 <= (#[trigger] rs[i]).2 <= 100 by {
                if i > 0 {
                    assert(rs[i] == rest[i - 1]);
                }
            }
        }
    }
}

proof fn lemma_group_tags_nonempty(name: Seq<char>, items: Seq<JsonValue>)
    ensures
        group_tags_checked(name, items) matches Ok(tags) ==> tags.len() == items.len(),
    decreases items.len(),
{
    if items.len() > 0 {
        lemma_group_tags_nonempty(name, items.drop_first());
    }
}

proof fn lemma_dedup_keeps_first(s: Seq<Seq<char>>)
    ensures
        s.len() > 0 ==> dedup(s).len() > 0,
        forall|x: Seq<char>| dedup(s).contains(x) <==> s.contains(x),
        forall|i: int, j: int| 0 <= i < j < dedup(s).len() ==> dedup(s)[i] != dedup(s)[j],
    decreases s.len(),
{
    if s.len() > 0 {
        let p = s.drop_last();
        lemma_dedup_keeps_first(p);
        assert forall|x: Seq<char>| dedup(s).contains(x) <==> s.contains(x) by {
            if s.contains(x) {
                let k = choose|k: int| 0 <= k < s.len() && s[k] == x;
                if k < s.len() - 1 {
                    assert(p[k] == x);
                    assert(p.contains(x));
                    assert(dedup(p).contains(x));
                    if !dedup(p).contains(s.last()) {
                        let m = choose|m: int| 0 <= m < dedup(p).len() && dedup(p)[m] == x;
                        assert(dedup(p).push(s.last())[m] == x);
                    }
                } else {
                    assert(x == s.last());
                    if !dedup(p).contains(s.last()) {
                        assert(dedup(p).push(s.last())[dedup(p).len() as int] == x);
                    }
                }
            }
            if dedup(s).contains(x) {
                let m = choose|m: int| 0 <= m < dedup(s).len() && dedup(s)[m] == x;
                if dedup(p).contains(s.last()) {
                    assert(dedup(s) == dedup(p));
                    assert(dedup(p)[m] == x);
                    assert(dedup(p).contains(x));
                    assert(p.contains(x));
                    let k = choose|k: int| 0 <= k < p.len() && p[k] == x;
                    assert(s[k] == x);
                } else if m < dedup(p).len() {
                    assert(dedup(p)[m] == x);
                    assert(dedup(p).contains(x));
                    assert(p.contains(x));
                    let k = choose|k: int| 0 <= k < p.len() && p[k] == x;
                    assert(s[k] == x);
                } else {
                    assert(x == s.last());
                    assert(s[s.len() - 1] == x);
                }
            }
        }
        if dedup(p).contains(s.last()) {
            if p.len() == 0 {
                assert(!dedup(p).contains(s.last()));
            }
        } else {
            let d = dedup(p).push(s.last());
            assert(d.last() == s.last());
        }
    }
}

proof fn lemma_groups_checked_have_tags(members: Seq<(String, JsonValue)>)
    ensures
        groups_checked(members) matches Ok(gs) ==> forall|i: int| 0 <= i < gs.len() ==> (#[trigger] gs[i]).2.len() > 0,
    decreases members.len(),
{
    if members.len() > 0 {
        lemma_groups_checked_have_tags(members.drop_first());
        if let Ok(gs) = groups_checked(members) {
            let g = group_checked(members[0].0@, members[0].1)->Ok_0;
            let value = members[0].1;
            let items = json_as_array(json_get(value, "tags"@))->Some_0;
            lemma_group_tags_nonempty(members[0].0@, items);
            lemma_dedup_keeps_first(group_tags_checked(members[0].0@, items)->Ok_0);
            let rest = groups_checked(members.drop_first())->Ok_0;
            assert forall|i: int| 0 <= i < gs.len() implies (#[trigger] gs[i]).2.len() > 0 by {
                if i > 0 {
                    assert(gs[i] == rest[i - 1]);
                }
            }
        }
    }
}

/// Settings that pass the check have at least one tag in every group, and every score rule
/// allows a change of at most 100 points (never a negative maximum).
pub proof fn law_checked_settings_are_bounded(root: JsonValue)
    ensures
        settings_checked(root) matches Ok((gs, rs)) ==> (forall|i: int| 0 <= i < gs.len() ==> (#[trigger] gs[i]).2.len() > 0)
            && (forall|i: int| 0 <= i < rs.len() ==> 0 <= (#[trigger] rs[i]).2 <= 100),
{
    if let Some(members) = json_as_object(json_get(root, "tag_groups"@)) {
        lemma_groups_checked_have_tags(members);
        if let Some(rules) = json_get(root, "score_rules"@) {
            if let Some(items) = json_as_array(Some(rules)) {
                lemma_rules_checked_bounded(items);
            }
        }
    }
}

/// Whether `label` is a tag of one of the groups.
pub open spec fn tag_of_some_group(groups: Seq<GroupView>, label: Seq<char>) -> bool {
    exists|g: int| 0 <= g < groups.len() && (#[trigger] groups[g]).2.contains(label)
}

proof fn lemma_chosen_tags_in_group(group: GroupView, items: Seq<JsonValue>)
    ensures
        chosen_tags_checked(group, items) matches Ok(ts) ==> forall|i: int| 0 <= i < ts.len() ==> group.2.contains(#[trigger] ts[i]),
    decreases items.len(),
{
    if items.len() > 0 {
        lemma_chosen_tags_in_group(group, items.drop_first());
        if let Ok(ts) = chosen_tags_checked(group, items) {
            let rest = chosen_tags_checked(group, items.drop_first())->Ok_0;
            assert forall|i: int| 0 <= i < ts.len() implies group.2.contains(#[trigger] ts[i]) by {
                if i > 0 {
                    assert(ts[i] == rest[i - 1]);
                }
            }
        }
    }
}

proof fn lemma_chosen_labels_in_groups(tags: Seq<(String, JsonValue)>, groups: Seq<GroupView>)
    ensures
        chosen_labels_checked(tags, groups) matches Ok(ls) ==> forall|i: int| 0 <= i < ls.len() ==> tag_of_some_group(groups, #[trigger] ls[i]),
    decreases groups.len(),
{
    if groups.len() > 0 {
        let g = groups[0];
        lemma_chosen_labels_in_groups(tags, groups.drop_first());
        lemma_chosen_tags_in_group(g, group_choice(tags, g));
        if let Ok(ls) = chosen_labels_checked(tags, groups) {
            let ts = chosen_tags_checked(g, group_choice(tags, g))->Ok_0;
            let rest = chosen_labels_checked(tags, groups.drop_first())->Ok_0;
            assert(ls == ts + rest);
            assert forall|i: int| 0 <= i < ls.len() implies tag_of_some_group(groups, #[trigger] ls[i]) by {
                if i < ts.len() {
                    assert(ls[i] == ts[i]);
                    assert(groups[0].2.contains(ls[i]));
                } else {
                    assert(ls[i] == rest[i - ts.len()]);
                    assert(tag_of_some_group(groups.drop_first(), rest[i - ts.len()]));
                    let k = choose|k: int| 0 <= k < groups.drop_first().len() && (#[trigger] groups.drop_first()[k]).2.contains(rest[i - ts.len()]);
                    assert(groups[k + 1] == groups.drop_first()[k]);
                }
            }
        }
    }
}

/// A final answer that passes the check has labels taken from the groups' tags, each once,
/// and a score between 0 and 100.
pub proof fn law_final_result_within_settings(value: JsonValue, groups: Seq<GroupView>, rules: Seq<RuleView>)
    ensures
        final_result_checked(value, groups, rules) matches Ok((labels, score, _summary)) ==> 0 <= score <= 100
            && (forall|i: int| 0 <= i < labels.len() ==> tag_of_some_group(groups, #[trigger] labels[i]))
            && (forall|i: int, j: int| 0 <= i < j < labels.len() ==> labels[i] != labels[j]),
{
    if let Some(tags) = json_as_object(json_get(value, "tags"@)) {
        lemma_chosen_labels_in_groups(tags, groups);
        if let Ok(ls) = chosen_labels_checked(tags, groups) {
            lemma_dedup_keeps_first(ls);
            if let Ok((labels, score, summary)) = final_result_checked(value, groups, rules) {
                assert(labels == dedup(ls));
                assert forall|i: int| 0 <= i < labels.len() implies tag_of_some_group(groups, #[trigger] labels[i]) by {
                    assert(labels.contains(labels[i]));
                    assert(ls.contains(labels[i]));
                    let k = choose|k: int| 0 <= k < ls.len() && ls[k] == labels[i];
                    assert(tag_of_some_group(groups, ls[k]));
                }
            }
        }
    }
}

/// The smallest change a rule of this direction and maximum allows.
pub open spec fn rule_low(direction: ScoreDirection, max: int) -> int {
    match direction {
        ScoreDirection::Add => 0,
        ScoreDirection::Subtract => -max,
    }
}

/// The largest change a rule of this direction and maximum allows.
pub open spec fn rule_high(direction: ScoreDirection, max: int) -> int {
    match direction {
        ScoreDirection::Add => max,
        ScoreDirection::Subtract => 0,
    }
}

/// The distance between two integers.
pub open spec fn distance(x: int, y: int) -> int {
    if x < y {
        y - x
    } else {
        x - y
    }
}

/// A rule turns the change the model asked for into the nearest change it allows: an allowed
/// change (0..=max for an addition, -max..=0 for a subtraction) counts in full, any other
/// counts as the nearer bound.
pub proof fn law_rule_change_is_nearest_allowed(direction: ScoreDirection, delta: int, max: int, other: int)
    requires
        max >= 0,
    ensures
        rule_low(direction, max) <= clamped_delta(direction, delta, max) <= rule_high(direction, max),
        rule_low(direction, max) <= delta <= rule_high(direction, max) ==> clamped_delta(direction, delta, max) == delta,
        rule_low(direction, max) <= other <= rule_high(direction, max)
            ==> distance(clamped_delta(direction, delta, max), delta) <= distance(other, delta),
{
}

/// The final score is the point of 0..=100 nearest to 50 plus the changes: that sum itself
/// when it lies in the range.
pub proof fn law_final_score_is_nearest_in_range(sum: int, other: int)
    ensures
        0 <= final_score(sum) <= 100,
        0 <= 50 + sum <= 100 ==> final_score(sum) == 50 + sum,
        0 <= other <= 100 ==> distance(final_score(sum), 50 + sum) <= distance(other, 50 + sum),
{
}

/// The changes of a list of score details add up: the details of two lists read together
/// give the sum of what each list gives.
pub proof fn law_score_changes_add_up(rules: Seq<RuleView>, a: Seq<JsonValue>, b: Seq<JsonValue>)
    ensures
        score_details_checked(rules, a) is Ok && score_details_checked(rules, b) is Ok ==> score_details_checked(rules, a + b)
            == Ok::<int, Seq<char>>(score_details_checked(rules, a)->Ok_0 + score_details_checked(rules, b)->Ok_0),
    decreases a.len(),
{
    if a.len() == 0 {
        assert(a + b =~= b);
    } else {
        assert((a + b)[0] == a[0]);
        assert((a + b).drop_first() =~= a.drop_first() + b);
        law_score_changes_add_up(rules, a.drop_first(), b);
    }
}

/// One score detail that names a rule changes the score by the asked change kept within what
/// the rule allows.
pub proof fn law_single_detail_change(rules: Seq<RuleView>, detail: JsonValue, name: Seq<char>, delta: i64, rule: RuleView)
    requires
        json_as_str(json_get(detail, "rule"@)) == Some(name),
        json_as_i64(json_get(detail, "delta"@)) == Some(delta),
        rule_named(rules, name) == Some(rule),
        i32::MIN <= delta <= i32::MAX,
    ensures
        score_details_checked(rules, seq![detail]) == Ok::<int, Seq<char>>(clamped_delta(rule.1, delta as int, rule.2)),
{
    let details = seq![detail];
    assert(details.drop_first() =~= Seq::<JsonValue>::empty());
    assert(score_details_checked(rules, details.drop_first()) == Ok::<int, Seq<char>>(0));
    assert((delta as i32) as int == delta);
    assert(details[0] == detail);
}

/// A final answer whose only score detail names an addition rule and asks for a change the
/// rule allows scores 50 plus that change (at most 100).
pub proof fn law_single_allowed_addition_scores_in_full(
    value: JsonValue,
    groups: Seq<GroupView>,
    rules: Seq<RuleView>,
    detail: JsonValue,
    name: Seq<char>,
    delta: i64,
    rule: RuleView,
)
    requires
        json_as_object(json_get(value, "tags"@)) is Some,
        chosen_labels_checked(json_as_object(json_get(value, "tags"@))->Some_0, groups) is Ok,
        json_as_array(json_get_opt(json_get(value, "score"@), "details"@)) == Some(seq![detail]),
        json_as_str(json_get(detail, "rule"@)) == Some(name),
        json_as_i64(json_get(detail, "delta"@)) == Some(delta),
        rule_named(rules, name) == Some(rule),
        rule.1 == ScoreDirection::Add,
        0 <= delta <= rule.2 <= i32::MAX,
    ensures
        final_result_checked(value, groups, rules) is Ok,
        final_result_checked(value, groups, rules)->Ok_0.1 == if delta <= 50 { 50 + delta } else { 100 },
{
    let details = seq![detail];
    assert(details.drop_first() =~= Seq::<JsonValue>::empty());
    assert(score_details_checked(rules, details.drop_first()) == Ok::<int, Seq<char>>(0));
    assert((delta as i32) as int == delta);
    assert(score_details_checked(rules, details) == Ok::<int, Seq<char>>(delta as int));
}

/// The labels a video gets when an AI result is accepted: the result's labels followed by
/// the label of its score.
pub fn accepted_labels(result: &AiAnalysisResult) -> (r: Vec<String>)
    ensures
        views(r@) == views(result.labels@).push(point_label_text(result.score as nat)),
{
    let mut out: Vec<String> = Vec::new();
    let mut i: usize = 0;
    while i < result.labels.len()
        invariant
            i <= result.labels.len(),
            views(out@) == views(result.labels@).take(i as int),
        decreases result.labels.len() - i,
    {
        let c = result.labels[i].clone();
        let ghost prev = out@;
        out.push(c);
        assert(views(out@) == views(prev).push(c@));
        assert(views(result.labels@).take(i + 1) == views(result.labels@).take(i as int).push(result.labels@[i as int]@));
        i += 1;
    }
    assert(views(result.labels@).take(result.labels.len() as int) == views(result.labels@));
    let ghost prev = out@;
    let p = point_label(result.score);
    out.push(p);
    assert(views(out@) == views(prev).push(p@));
    out
}

/// The stream timeout of an AI run, in seconds: the configured one, raised to 600 when it is
/// shorter, since a local model can take long to produce its first token.
pub fn run_stream_timeout(configured: u64) -> (r: u64)
    ensures
        r == if configured < 600 {
            600
        } else {
            configured
        },
{
    if configured < 600 {
        600
    } else {
        configured
    }
}

} // verus!
