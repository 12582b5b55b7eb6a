use dqr::error::DqrError;
use dqr::models::{
    default_journey, default_system, same_rule, same_rules, ConditionalLogic, NewRuleRequest,
    Parameter, ValidationError, ValidationResponse, ValidationRule,
};
use dqr::rules::{rule_in_scope, RuleRepository};
use dqr::validation::ValidationEngine;

fn rule(id: &str, key_fields: &str) -> ValidationRule {
    ValidationRule {
        id: id.to_string(),
        selector: format!("$.{}", id),
        condition: "required".to_string(),
        key_fields: key_fields.to_string(),
        journey: "DEFAULT".to_string(),
        system: "ALL".to_string(),
        depends_on_selector: String::new(),
        depends_on_condition: String::new(),
        parameters: Vec::new(),
        logic_type: ConditionalLogic::Standard,
        parent_rule_id: String::new(),
    }
}

fn scoped_rule(id: &str, journey: &str, system: &str) -> ValidationRule {
    let mut out = rule(id, id);
    out.journey = journey.to_string();
    out.system = system.to_string();
    out
}

fn branch(id: &str, logic: ConditionalLogic, parent: &str) -> ValidationRule {
    let mut out = rule(id, "");
    out.logic_type = logic;
    out.parent_rule_id = parent.to_string();
    out
}

fn ids(rules: &[ValidationRule]) -> Vec<String> {
    rules.iter().map(|r| r.id.clone()).collect()
}

fn fields(names: &[&str]) -> Vec<String> {
    names.iter().map(|n| n.to_string()).collect()
}

fn request(path: &str, parameters: Option<&str>, description: Option<&str>) -> NewRuleRequest {
    NewRuleRequest {
        field_path: path.to_string(),
        validation_type: "required".to_string(),
        parameters: parameters.map(|p| p.to_string()),
        description: description.map(|d| d.to_string()),
        journey: default_journey(),
        system: default_system(),
    }
}

#[test]
fn defaults_are_default_and_all() {
    assert_eq!(default_journey(), "DEFAULT");
    assert_eq!(default_system(), "ALL");
    assert_eq!(ConditionalLogic::default(), ConditionalLogic::Standard);
}

#[test]
fn responses_are_built() {
    let ok = ValidationResponse::success();
    assert!(ok.valid);
    assert!(ok.errors.is_empty());
    let failed = ValidationResponse::failure(vec![ValidationError {
        path: "$.a".to_string(),
        rule_id: "a".to_string(),
    }]);
    assert!(!failed.valid);
    assert_eq!(failed.errors.len(), 1);
    assert_eq!(failed.errors[0].path, "$.a");
    assert_eq!(failed.errors[0].rule_id, "a");
    let copy = failed.clone();
    assert_eq!(copy.errors[0].rule_id, "a");
}

#[test]
fn rules_know_their_part() {
    assert!(!rule("a", "a").is_conditional_branch());
    assert!(!rule("a", "a").is_condition_root());
    assert!(branch("a", ConditionalLogic::Then, "p").is_conditional_branch());
    assert!(branch("a", ConditionalLogic::Else, "p").is_conditional_branch());
    assert!(!branch("a", ConditionalLogic::If, "").is_conditional_branch());
    assert!(branch("a", ConditionalLogic::If, "").is_condition_root());
    assert!(!branch("a", ConditionalLogic::Then, "p").is_condition_root());
}

#[test]
fn errors_have_messages() {
    assert_eq!(DqrError::JsonError("x".to_string()).message(), "JSON parsing error: x");
    assert_eq!(DqrError::CsvError("x".to_string()).message(), "CSV parsing error: x");
    assert_eq!(DqrError::IoError("x".to_string()).message(), "IO error: x");
    assert_eq!(DqrError::RuleNotFound("R1".to_string()).message(), "Validation rule not found: R1");
    assert_eq!(
        DqrError::InvalidRuleConfig("x".to_string()).message(),
        "Invalid rule configuration: x"
    );
    assert_eq!(DqrError::JsonPathError("x".to_string()).message(), "JSON path error: x");
    assert_eq!(DqrError::ValidationError("x".to_string()).message(), "Validation error: x");
}

#[test]
fn a_new_repository_is_empty() {
    let repo = RuleRepository::new();
    assert!(repo.get_rules_for_key_fields(&fields(&["*"])).is_empty());
    assert!(repo.get_rules_for_key_field("a").is_empty());
    assert!(repo.get_all_rules_for_display().is_empty());
    assert!(repo.all_rules().is_empty());
    assert_eq!(repo.get_journey_system_cache_size(), 0);
    assert_eq!(repo.conditional_root_count(), 0);
    assert_eq!(repo.rules_file_path(), None);
    let (then_rules, else_rules) = repo.get_conditional_rules("a");
    assert!(then_rules.is_empty() && else_rules.is_empty());
}

#[test]
fn rules_are_found_by_field() {
    let mut repo = RuleRepository::new();
    repo.add_rule("x".to_string(), rule("b", "x"));
    repo.add_rule("y".to_string(), rule("c", "y"));
    repo.add_rule("x".to_string(), rule("a", "x"));
    assert_eq!(ids(&repo.get_rules_for_key_field("x")), vec!["b", "a"]);
    assert_eq!(ids(&repo.get_rules_for_key_field("y")), vec!["c"]);
    assert!(repo.get_rules_for_key_field("z").is_empty());
    assert_eq!(ids(&repo.all_rules()), vec!["b", "c", "a"]);
}

#[test]
fn queries_answer_sorted_and_without_duplicates() {
    let mut repo = RuleRepository::new();
    repo.add_rule("x".to_string(), rule("m", "x,y"));
    repo.add_rule("y".to_string(), rule("m", "x,y"));
    repo.add_rule("y".to_string(), rule("a", "y"));
    repo.add_rule("z".to_string(), rule("z", "z"));
    repo.add_rule("x".to_string(), rule("B", "x"));
    assert_eq!(ids(&repo.get_rules_for_key_fields(&fields(&["x"]))), vec!["B", "m"]);
    assert_eq!(ids(&repo.get_rules_for_key_fields(&fields(&["y", "x"]))), vec!["B", "a", "m"]);
    assert_eq!(ids(&repo.get_rules_for_key_fields(&fields(&["x", "x"]))), vec!["B", "m"]);
    assert_eq!(ids(&repo.get_rules_for_key_fields(&fields(&["*"]))), vec!["B", "a", "m", "z"]);
    assert_eq!(ids(&repo.get_rules_for_key_fields(&fields(&["z", "*"]))), vec!["B", "a", "m", "z"]);
    assert!(repo.get_rules_for_key_fields(&fields(&["nothing"])).is_empty());
    assert!(repo.get_rules_for_key_fields(&fields(&[])).is_empty());
}

#[test]
fn of_rules_with_one_identifier_the_first_stays() {
    let mut repo = RuleRepository::new();
    let mut first = rule("same", "x");
    first.condition = "first".to_string();
    let mut second = rule("same", "y");
    second.condition = "second".to_string();
    repo.add_rule("x".to_string(), first);
    repo.add_rule("y".to_string(), second);
    let all = repo.get_rules_for_key_fields(&fields(&["*"]));
    assert_eq!(all.len(), 1);
    assert_eq!(all[0].condition, "first");
    let turned = repo.get_rules_for_key_fields(&fields(&["y", "x"]));
    assert_eq!(turned.len(), 1);
    assert_eq!(turned[0].condition, "second");
}

#[test]
fn all_checks_takes_every_journey() {
    let mut repo = RuleRepository::new();
    repo.add_rule("a".to_string(), scoped_rule("a", "ONBOARDING", "CRM"));
    repo.add_rule("b".to_string(), scoped_rule("b", "DEFAULT", "ALL"));
    repo.add_rule("c".to_string(), scoped_rule("c", "CLOSING", "WEB"));
    repo.add_rule("d".to_string(), scoped_rule("d", "CLOSING", "ALL"));
    assert_eq!(ids(&repo.get_rules_for_journey_system("ALL_CHECKS", "CRM")), vec!["a", "b", "d"]);
    assert_eq!(ids(&repo.get_rules_for_journey_system("ALL_CHECKS", "WEB")), vec!["b", "c", "d"]);
    assert_eq!(ids(&repo.get_rules_for_journey_system("ALL_CHECKS", "ALL")), vec!["b", "d"]);
    assert_eq!(ids(&repo.get_rules_for_journey_system("ALL_CHECKS", "")), vec!["b", "d"]);
}

#[test]
fn a_rule_for_all_systems_fits_every_system() {
    let mut repo = RuleRepository::new();
    repo.add_rule("d".to_string(), scoped_rule("d", "CLOSING", "ALL"));
    for system in ["ALL", "CRM", "WEB", "", "anything at all"] {
        assert_eq!(ids(&repo.get_rules_for_journey_system("CLOSING", system)), vec!["d"]);
        assert!(rule_in_scope(&scoped_rule("d", "CLOSING", "ALL"), "CLOSING", system));
    }
    assert!(repo.get_rules_for_journey_system("DEFAULT", "CRM").is_empty());
    assert!(!rule_in_scope(&scoped_rule("d", "CLOSING", "ALL"), "DEFAULT", "CRM"));
    assert!(rule_in_scope(&scoped_rule("d", "DEFAULT", "CRM"), "DEFAULT", "CRM"));
    assert!(!rule_in_scope(&scoped_rule("d", "DEFAULT", "CRM"), "DEFAULT", "ALL"));
}

#[test]
fn rule_sets_are_cached_on_request_only() {
    let mut repo = RuleRepository::new();
    repo.add_rule("a".to_string(), scoped_rule("a", "DEFAULT", "ALL"));
    let rules = repo.get_rules_for_journey_system("DEFAULT", "CRM");
    assert_eq!(repo.get_journey_system_cache_size(), 0);
    repo.update_journey_system_cache("DEFAULT", "CRM", rules);
    assert_eq!(repo.get_journey_system_cache_size(), 1);
    assert_eq!(ids(&repo.get_rules_for_journey_system("DEFAULT", "CRM")), vec!["a"]);
    let again = repo.get_rules_for_journey_system("DEFAULT", "CRM");
    repo.update_journey_system_cache("DEFAULT", "CRM", again);
    assert_eq!(repo.get_journey_system_cache_size(), 1);
    let other = repo.get_rules_for_journey_system("DEFAULT", "WEB");
    repo.update_journey_system_cache("DEFAULT", "WEB", other);
    assert_eq!(repo.get_journey_system_cache_size(), 2);
    repo.add_rule("b".to_string(), scoped_rule("b", "DEFAULT", "ALL"));
    assert_eq!(repo.get_journey_system_cache_size(), 0);
    assert_eq!(ids(&repo.get_rules_for_journey_system("DEFAULT", "CRM")), vec!["a", "b"]);
    let rules = repo.get_rules_for_journey_system("DEFAULT", "CRM");
    repo.update_journey_system_cache("DEFAULT", "CRM", rules);
    repo.clear_caches();
    assert_eq!(repo.get_journey_system_cache_size(), 0);
    let engine = ValidationEngine::new(repo);
    assert_eq!(engine.get_journey_system_cache_size(), 0);
    assert_eq!(ids(&engine.get_rules_for_journey_system("DEFAULT", "CRM")), vec!["a", "b"]);
}

#[test]
fn rules_that_are_not_the_rule_set_are_not_cached() {
    let mut repo = RuleRepository::new();
    repo.add_rule("a".to_string(), scoped_rule("a", "DEFAULT", "ALL"));
    repo.add_rule("b".to_string(), scoped_rule("b", "DEFAULT", "CRM"));
    repo.update_journey_system_cache("DEFAULT", "WEB", Vec::new());
    assert_eq!(repo.get_journey_system_cache_size(), 0);
    repo.update_journey_system_cache("DEFAULT", "WEB", vec![scoped_rule("b", "DEFAULT", "CRM")]);
    assert_eq!(repo.get_journey_system_cache_size(), 0);
    let mut changed = scoped_rule("a", "DEFAULT", "ALL");
    changed.condition = "is_string".to_string();
    repo.update_journey_system_cache("DEFAULT", "WEB", vec![changed]);
    assert_eq!(repo.get_journey_system_cache_size(), 0);
    let crm = repo.get_rules_for_journey_system("DEFAULT", "CRM");
    repo.update_journey_system_cache("DEFAULT", "WEB", crm);
    assert_eq!(repo.get_journey_system_cache_size(), 0);
    assert_eq!(ids(&repo.get_rules_for_journey_system("DEFAULT", "WEB")), vec!["a"]);
    repo.update_journey_system_cache("DEFAULT", "WEB", vec![scoped_rule("a", "DEFAULT", "ALL")]);
    assert_eq!(repo.get_journey_system_cache_size(), 1);
    let crm = repo.get_rules_for_journey_system("DEFAULT", "CRM");
    repo.update_journey_system_cache("DEFAULT", "CRM", crm);
    let crm = repo.get_rules_for_journey_system("DEFAULT", "CRM");
    repo.update_journey_system_cache("DEFAULT", "CRM", crm);
    assert_eq!(repo.get_journey_system_cache_size(), 2);
    assert_eq!(ids(&repo.get_rules_for_journey_system("DEFAULT", "CRM")), vec!["a", "b"]);
}

#[test]
fn rules_compare_field_by_field() {
    let base = scoped_rule("a", "DEFAULT", "ALL");
    assert!(same_rule(&base, &base.clone()));
    let mut other = base.clone();
    other.id = "b".to_string();
    assert!(!same_rule(&base, &other));
    let mut other = base.clone();
    other.selector.push('x');
    assert!(!same_rule(&base, &other));
    let mut other = base.clone();
    other.condition.push('x');
    assert!(!same_rule(&base, &other));
    let mut other = base.clone();
    other.key_fields.push('x');
    assert!(!same_rule(&base, &other));
    let mut other = base.clone();
    other.journey.push('x');
    assert!(!same_rule(&base, &other));
    let mut other = base.clone();
    other.system.push('x');
    assert!(!same_rule(&base, &other));
    let mut other = base.clone();
    other.depends_on_selector.push('x');
    assert!(!same_rule(&base, &other));
    let mut other = base.clone();
    other.depends_on_condition.push('x');
    assert!(!same_rule(&base, &other));
    let mut other = base.clone();
    other.parent_rule_id.push('x');
    assert!(!same_rule(&base, &other));
    let mut other = base.clone();
    other.logic_type = ConditionalLogic::If;
    assert!(!same_rule(&base, &other));
    let mut other = base.clone();
    other.parameters.push(Parameter { name: "n".to_string(), value: "1".to_string() });
    assert!(!same_rule(&base, &other));
    let mut third = other.clone();
    assert!(same_rule(&third, &other));
    third.parameters[0].value = "2".to_string();
    assert!(!same_rule(&third, &other));
    third.parameters[0].value = "1".to_string();
    third.parameters[0].name = "m".to_string();
    assert!(!same_rule(&third, &other));
    assert!(same_rules(&vec![base.clone(), other.clone()], &vec![base.clone(), other.clone()]));
    assert!(!same_rules(&vec![base.clone(), other.clone()], &vec![other.clone(), base.clone()]));
    assert!(!same_rules(&vec![base.clone()], &vec![base.clone(), base.clone()]));
    assert!(same_rules(&Vec::new(), &Vec::new()));
}

#[test]
fn every_cached_rule_set_stays_until_the_rules_change() {
    let mut repo = RuleRepository::new();
    repo.add_rule("a".to_string(), scoped_rule("a", "DEFAULT", "ALL"));
    for n in 0..300 {
        let system = format!("S{}", n);
        let rules = repo.get_rules_for_journey_system("DEFAULT", &system);
        repo.update_journey_system_cache("DEFAULT", &system, rules);
        assert_eq!(repo.get_journey_system_cache_size(), n + 1);
    }
    let rules = repo.get_rules_for_journey_system("DEFAULT", "S0");
    repo.update_journey_system_cache("DEFAULT", "S0", rules);
    assert_eq!(repo.get_journey_system_cache_size(), 300);
    assert_eq!(ids(&repo.get_rules_for_journey_system("DEFAULT", "S0")), vec!["a"]);
    repo.delete_rule("a").unwrap();
    assert_eq!(repo.get_journey_system_cache_size(), 0);
}

#[test]
fn repositories_and_engines_are_copied_whole() {
    let mut repo = RuleRepository::new();
    repo.load_from_csv(
        "r.csv".to_string(),
        vec![rule("a", "x"), branch("t", ConditionalLogic::Then, "a")],
    );
    let rules = repo.get_rules_for_journey_system("DEFAULT", "ALL");
    repo.update_journey_system_cache("DEFAULT", "ALL", rules);
    let copy = repo.clone();
    repo.delete_rule("a").unwrap();
    assert_eq!(ids(&copy.all_rules()), vec!["a", "t"]);
    assert_eq!(ids(&copy.get_rules_for_key_field("x")), vec!["a"]);
    assert_eq!(ids(&copy.get_conditional_rules("a").0), vec!["t"]);
    assert_eq!(copy.get_journey_system_cache_size(), 1);
    assert_eq!(copy.rules_file_path(), Some("r.csv".to_string()));
    let mut engine = ValidationEngine::new(copy);
    let document: serde_json::Value = serde_json::from_str("{}").unwrap();
    engine.validate_mut(&document, "DEFAULT", "ALL").unwrap();
    let twin = engine.clone();
    engine.clear_validation_cache();
    assert_eq!(twin.get_validation_cache_size(), 1);
    assert_eq!(twin.get_journey_system_cache_size(), 1);
    assert_eq!(twin.validate(&document, "DEFAULT", "ALL").unwrap().errors.len(), 1);
    let fresh = RuleRepository::default();
    assert!(fresh.all_rules().is_empty());
}

#[test]
fn branches_are_set_and_read() {
    let mut repo = RuleRepository::new();
    repo.set_conditional_rules(
        "p".to_string(),
        vec![branch("t1", ConditionalLogic::Then, "p"), branch("t2", ConditionalLogic::Then, "p")],
        vec![branch("e1", ConditionalLogic::Else, "p")],
    );
    repo.set_conditional_rules("q".to_string(), Vec::new(), vec![branch("e2", ConditionalLogic::Else, "q")]);
    let (then_rules, else_rules) = repo.get_conditional_rules("p");
    assert_eq!(ids(&then_rules), vec!["t1", "t2"]);
    assert_eq!(ids(&else_rules), vec!["e1"]);
    let (then_rules, else_rules) = repo.get_conditional_rules("q");
    assert!(then_rules.is_empty());
    assert_eq!(ids(&else_rules), vec!["e2"]);
    let (then_rules, else_rules) = repo.get_conditional_rules("r");
    assert!(then_rules.is_empty() && else_rules.is_empty());
    repo.set_conditional_rules("p".to_string(), vec![branch("t3", ConditionalLogic::Then, "p")], Vec::new());
    let (then_rules, else_rules) = repo.get_conditional_rules("p");
    assert_eq!(ids(&then_rules), vec!["t3"]);
    assert!(else_rules.is_empty());
    assert_eq!(repo.conditional_root_count(), 2);
}

#[test]
fn a_load_replaces_everything() {
    let mut repo = RuleRepository::new();
    repo.add_rule("old".to_string(), rule("old", "old"));
    repo.set_conditional_rules("old".to_string(), vec![branch("t", ConditionalLogic::Then, "old")], Vec::new());
    let rules = repo.get_rules_for_journey_system("DEFAULT", "ALL");
    repo.update_journey_system_cache("DEFAULT", "ALL", rules);
    let mut root = rule("root", "payment.type");
    root.logic_type = ConditionalLogic::If;
    let records = vec![
        rule("n", " name , user.name,name "),
        branch("t1", ConditionalLogic::Then, "root"),
        root,
        branch("e1", ConditionalLogic::Else, "root"),
        branch("e2", ConditionalLogic::Else, "lonely"),
        rule("unindexed", ""),
        branch("t2", ConditionalLogic::Then, "root"),
        rule("star", "*"),
    ];
    repo.load_from_csv("rules/default.csv".to_string(), records);
    assert_eq!(repo.rules_file_path(), Some("rules/default.csv".to_string()));
    assert_eq!(repo.get_journey_system_cache_size(), 0);
    assert!(repo.get_rules_for_key_field("old").is_empty());
    assert_eq!(ids(&repo.get_rules_for_key_field("name")), vec!["n", "n"]);
    assert_eq!(ids(&repo.get_rules_for_key_field("user.name")), vec!["n"]);
    assert!(repo.get_rules_for_key_field(" name ").is_empty());
    assert_eq!(ids(&repo.get_rules_for_key_field("payment.type")), vec!["root"]);
    assert_eq!(ids(&repo.get_rules_for_key_field("*")), vec!["star"]);
    assert!(repo.get_rules_for_key_field("").is_empty());
    assert_eq!(ids(&repo.get_rules_for_key_fields(&fields(&["*"]))), vec!["n", "root", "star"]);
    assert_eq!(ids(&repo.get_rules_for_key_fields(&fields(&["name"]))), vec!["n"]);
    let (then_rules, else_rules) = repo.get_conditional_rules("root");
    assert_eq!(ids(&then_rules), vec!["t1", "t2"]);
    assert_eq!(ids(&else_rules), vec!["e1"]);
    let (then_rules, else_rules) = repo.get_conditional_rules("lonely");
    assert!(then_rules.is_empty());
    assert_eq!(ids(&else_rules), vec!["e2"]);
    assert!(repo.get_conditional_rules("old").0.is_empty());
    assert_eq!(
        ids(&repo.all_rules()),
        vec!["n", "t1", "root", "e1", "e2", "unindexed", "t2", "star"]
    );
    assert_eq!(
        repo.get_all_rules_for_display().iter().map(|d| d.id.clone()).collect::<Vec<_>>(),
        vec!["n", "unindexed", "star"]
    );
}

#[test]
fn a_deletion_reaches_the_index_the_branches_and_the_list() {
    let mut repo = RuleRepository::new();
    let mut root = rule("root", "x");
    root.logic_type = ConditionalLogic::If;
    repo.load_from_csv(
        "r.csv".to_string(),
        vec![
            rule("a", "x,y"),
            rule("b", "y"),
            root,
            branch("a", ConditionalLogic::Then, "root"),
            branch("t", ConditionalLogic::Then, "root"),
            branch("a", ConditionalLogic::Else, "root"),
            branch("u", ConditionalLogic::Then, "a"),
        ],
    );
    let rules = repo.get_rules_for_journey_system("DEFAULT", "ALL");
    repo.update_journey_system_cache("DEFAULT", "ALL", rules);
    assert!(matches!(repo.delete_rule("nobody"), Err(DqrError::RuleNotFound(id)) if id == "nobody"));
    assert_eq!(repo.get_journey_system_cache_size(), 1);
    assert_eq!(repo.all_rules().len(), 7);
    repo.delete_rule("a").unwrap();
    assert_eq!(repo.get_journey_system_cache_size(), 0);
    assert_eq!(ids(&repo.all_rules()), vec!["b", "root", "t", "u"]);
    assert_eq!(ids(&repo.get_rules_for_key_field("x")), vec!["root"]);
    assert_eq!(ids(&repo.get_rules_for_key_field("y")), vec!["b"]);
    assert_eq!(ids(&repo.get_rules_for_key_fields(&fields(&["*"]))), vec!["b", "root"]);
    let (then_rules, else_rules) = repo.get_conditional_rules("root");
    assert_eq!(ids(&then_rules), vec!["t"]);
    assert!(else_rules.is_empty());
    let (then_rules, else_rules) = repo.get_conditional_rules("a");
    assert!(then_rules.is_empty() && else_rules.is_empty());
    assert_eq!(repo.conditional_root_count(), 1);
    assert!(matches!(repo.delete_rule("a"), Err(DqrError::RuleNotFound(_))));
    repo.delete_rule("b").unwrap();
    assert!(repo.get_rules_for_key_field("y").is_empty());
    repo.delete_rule("t").unwrap();
    let (then_rules, _) = repo.get_conditional_rules("root");
    assert!(then_rules.is_empty());
}

#[test]
fn a_rule_that_stands_in_a_branch_only_can_be_deleted() {
    let mut repo = RuleRepository::new();
    repo.set_conditional_rules(
        "p".to_string(),
        vec![branch("t", ConditionalLogic::Then, "p")],
        vec![branch("e", ConditionalLogic::Else, "p")],
    );
    assert!(matches!(repo.delete_rule("p"), Err(DqrError::RuleNotFound(_))));
    repo.delete_rule("t").unwrap();
    let (then_rules, else_rules) = repo.get_conditional_rules("p");
    assert!(then_rules.is_empty());
    assert_eq!(ids(&else_rules), vec!["e"]);
}

#[test]
fn created_rules_get_fresh_identifiers() {
    let mut repo = RuleRepository::new();
    assert_eq!(repo.create_rule(&request("$.a", None, None)).unwrap(), "R1");
    assert_eq!(repo.create_rule(&request("$.b", None, None)).unwrap(), "R2");
    assert_eq!(repo.create_rule(&request("$.c", None, None)).unwrap(), "R3");
    repo.delete_rule("R1").unwrap();
    // the number of rules went down; the numbers handed out do not come back
    assert_eq!(repo.create_rule(&request("$.d", None, None)).unwrap(), "R4");
    repo.add_rule("x".to_string(), rule("x1", "x"));
    repo.add_rule("x".to_string(), rule("x2", "x"));
    repo.add_rule("x".to_string(), rule("x3", "x"));
    assert_eq!(repo.create_rule(&request("$.e", None, None)).unwrap(), "R7");
    assert_eq!(repo.create_rule(&request("$.f", None, None)).unwrap(), "R8");
    for _ in 0..3 {
        repo.create_rule(&request("$.g", None, None)).unwrap();
    }
    assert_eq!(repo.create_rule(&request("$.h", None, None)).unwrap(), "R12");
}

#[test]
fn a_created_rule_gets_an_identifier_that_no_rule_has() {
    let mut repo = RuleRepository::new();
    repo.add_rule("x".to_string(), rule("R2", "x"));
    assert_eq!(repo.create_rule(&request("$.a", None, None)).unwrap(), "R3");
    let mut repo = RuleRepository::new();
    repo.load_from_csv("r.csv".to_string(), vec![rule("R2", "x")]);
    assert_eq!(repo.create_rule(&request("$.a", None, None)).unwrap(), "R3");
    let mut repo = RuleRepository::new();
    repo.set_conditional_rules(
        "p".to_string(),
        vec![branch("R1", ConditionalLogic::Then, "p")],
        vec![branch("R2", ConditionalLogic::Else, "p")],
    );
    repo.add_rule("x".to_string(), rule("R4", "x"));
    assert_eq!(repo.create_rule(&request("$.a", None, None)).unwrap(), "R3");
    assert_eq!(repo.create_rule(&request("$.a", None, None)).unwrap(), "R5");
    // created twice, loaded anew, one deleted: the numbers do not come back
    let mut repo = RuleRepository::new();
    assert_eq!(repo.create_rule(&request("$.a", None, None)).unwrap(), "R1");
    assert_eq!(repo.create_rule(&request("$.b", None, None)).unwrap(), "R2");
    let records = repo.all_rules();
    repo.load_from_csv("r.csv".to_string(), records);
    repo.delete_rule("R1").unwrap();
    assert_eq!(repo.create_rule(&request("$.c", None, None)).unwrap(), "R3");
    let made: Vec<String> = repo.all_rules().iter().map(|r| r.id.clone()).collect();
    assert_eq!(made, vec!["R2", "R3"]);
}

#[test]
fn a_created_rule_is_a_standard_rule_under_its_path() {
    let mut repo = RuleRepository::new();
    let mut wanted = request("$.user.name", None, None);
    wanted.validation_type = "min_length:2".to_string();
    wanted.journey = "ONBOARDING".to_string();
    wanted.system = "CRM".to_string();
    let id = repo.create_rule(&wanted).unwrap();
    let found = repo.get_rules_for_key_field("$.user.name");
    assert_eq!(found.len(), 1);
    let made = &found[0];
    assert_eq!(made.id, id);
    assert_eq!(made.selector, "$.user.name");
    assert_eq!(made.condition, "min_length:2");
    assert_eq!(made.key_fields, "$.user.name");
    assert_eq!(made.journey, "ONBOARDING");
    assert_eq!(made.system, "CRM");
    assert_eq!(made.depends_on_selector, "");
    assert_eq!(made.depends_on_condition, "");
    assert!(made.parameters.is_empty());
    assert_eq!(made.logic_type, ConditionalLogic::Standard);
    assert_eq!(made.parent_rule_id, "");
    assert_eq!(ids(&repo.all_rules()), vec![id.clone()]);
    assert_eq!(ids(&repo.get_rules_for_journey_system("ONBOARDING", "CRM")), vec![id]);
}

fn made_parameters(parameters: Option<&str>, description: Option<&str>) -> Vec<(String, String)> {
    let mut repo = RuleRepository::new();
    repo.create_rule(&request("$.a", parameters, description)).unwrap();
    repo.all_rules()[0].parameters.iter().map(|p| (p.name.clone(), p.value.clone())).collect()
}

fn pair(name: &str, value: &str) -> (String, String) {
    (name.to_string(), value.to_string())
}

#[test]
fn parameters_are_read_as_json_or_as_text() {
    assert_eq!(made_parameters(None, None), vec![]);
    assert_eq!(made_parameters(Some(""), None), vec![]);
    assert_eq!(made_parameters(Some("no colon"), None), vec![]);
    assert_eq!(made_parameters(Some("min:3"), None), vec![pair("min", "3")]);
    assert_eq!(
        made_parameters(Some(" min : 3 , flag:true,name:abc,quoted:\"q\",none:null"), None),
        vec![
            pair("min", "3"),
            pair("flag", "true"),
            pair("name", "\"abc\""),
            pair("quoted", "\"q\""),
            pair("none", "null"),
        ]
    );
    assert_eq!(made_parameters(Some("a:1.50"), None), vec![pair("a", "1.5")]);
    assert_eq!(made_parameters(Some("a:b:c"), None), vec![pair("a", "\"b:c\"")]);
    assert_eq!(made_parameters(Some("a:"), None), vec![pair("a", "\"\"")]);
    assert_eq!(made_parameters(Some("a: x"), None), vec![pair("a", "\" x\"")]);
    assert_eq!(made_parameters(Some(":1"), None), vec![pair("", "1")]);
    assert_eq!(made_parameters(Some("a:1,b:2,a:3"), None), vec![pair("a", "3"), pair("b", "2")]);
    assert_eq!(made_parameters(Some("a:[1,b:2]"), None), vec![pair("a", "\"[1\""), pair("b", "\"2]\"")]);
}

#[test]
fn the_description_is_a_parameter() {
    assert_eq!(
        made_parameters(None, Some("say \"hi\"")),
        vec![pair("description", "\"say \\\"hi\\\"\"")]
    );
    assert_eq!(
        made_parameters(Some("description:old,min:3"), Some("new")),
        vec![pair("description", "\"new\""), pair("min", "3")]
    );
}

#[test]
fn rules_are_shown_with_parameters_and_description() {
    let mut repo = RuleRepository::new();
    repo.create_rule(&request("$.a", None, None)).unwrap();
    repo.create_rule(&request("$.b", Some("min:3,name:abc"), Some("about b"))).unwrap();
    repo.create_rule(&request("$.c", Some("description:7"), None)).unwrap();
    let mut hidden = rule("root", "x");
    hidden.logic_type = ConditionalLogic::If;
    repo.add_rule("x".to_string(), hidden);
    let mut by_hand = rule("by_hand", "y");
    by_hand.parameters = vec![Parameter { name: "description".to_string(), value: "not json".to_string() }];
    repo.add_rule("y".to_string(), by_hand);
    let shown = repo.get_all_rules_for_display();
    assert_eq!(shown.len(), 4);
    assert_eq!(shown[0].id, "R1");
    assert_eq!(shown[0].field_path, "$.a");
    assert_eq!(shown[0].validation_type, "required");
    assert_eq!(shown[0].parameters, None);
    assert_eq!(shown[0].description, None);
    assert_eq!(shown[0].journey, "DEFAULT");
    assert_eq!(shown[0].system, "ALL");
    assert_eq!(
        shown[1].parameters,
        Some("min:3,name:\"abc\",description:\"about b\"".to_string())
    );
    assert_eq!(shown[1].description, Some("about b".to_string()));
    assert_eq!(shown[2].parameters, Some("description:7".to_string()));
    assert_eq!(shown[2].description, None);
    assert_eq!(shown[3].id, "by_hand");
    assert_eq!(shown[3].parameters, Some("description:not json".to_string()));
    assert_eq!(shown[3].description, None);
    let engine = ValidationEngine::new(repo);
    assert_eq!(engine.get_rules_for_display().len(), 4);
}

#[test]
fn a_save_needs_a_path() {
    let mut repo = RuleRepository::new();
    repo.add_rule("a".to_string(), rule("a", "a"));
    match repo.save_rules_to_file() {
        Err(DqrError::InvalidRuleConfig(text)) => assert_eq!(text, "No rules file path set"),
        other => panic!("{:?}", other.map(|x| x.0)),
    }
    repo.set_rules_file_path("rules/default.csv".to_string());
    let (path, rules) = repo.save_rules_to_file().unwrap();
    assert_eq!(path, "rules/default.csv");
    assert_eq!(ids(&rules), vec!["a"]);
    let engine = ValidationEngine::new(repo);
    let (path, rules) = engine.save_rules_to_file().unwrap();
    assert_eq!(path, "rules/default.csv");
    assert_eq!(rules.len(), 1);
}
