use watson::api;
use watson::api::{CreateWorkflow, CreateWorkflowItem};
use watson::ids::parse_id;
use watson::state::{File, WatsonState};
use watson::WatsonError;

fn sample_file() -> File {
    File {
        content: String::from("Test1234"),
        name: String::from("support_bundle/1354/container/foo.log"),
    }
}

#[test]
fn status() {
    assert_eq!(api::status(), "alive");
}

#[test]
fn add_file() {
    let mut state = WatsonState::new();
    let id = api::add_file(&mut state, sample_file());
    assert!(parse_id(&id).is_some());
}

#[test]
fn retrieve_existing_file() {
    let mut state = WatsonState::new();
    let id = api::add_file(&mut state, sample_file());
    let analyzed = api::get_file(&state, &id).unwrap();
    assert_eq!(analyzed.file.name, "support_bundle/1354/container/foo.log");
    assert_eq!(analyzed.file.content, "Test1234");
}

#[test]
fn retrieve_nonexisting_file() {
    let state = WatsonState::new();
    let r = api::get_file(&state, "abc");
    assert!(matches!(r, Err(WatsonError::NotFound)));
}

#[test]
fn return_file_with_findings() {
    let mut state = WatsonState::new();
    api::add_analyzer(&mut state, String::from("INFO")).unwrap();
    api::add_analyzer(&mut state, String::from("ERROR")).unwrap();
    let file = File {
        content: String::from("INFO: started application\nERROR: license expired on 23-04-2017"),
        name: String::from("support_bundle/1354/container/foo.log"),
    };
    let id = api::add_file(&mut state, file);
    let analyzed = api::get_file(&state, &id).unwrap();
    assert_eq!(analyzed.file.name, "support_bundle/1354/container/foo.log");
    assert_eq!(
        analyzed.file.content,
        "INFO: started application\nERROR: license expired on 23-04-2017"
    );
    assert_eq!(analyzed.findings[0].line_number, 1);
    assert_eq!(analyzed.findings[0].line, "INFO: started application");
    assert_eq!(analyzed.findings[1].line_number, 2);
    assert_eq!(analyzed.findings[1].line, "ERROR: license expired on 23-04-2017");
}

#[test]
fn return_all_files() {
    let mut state = WatsonState::new();
    api::add_analyzer(&mut state, String::from("INFO")).unwrap();
    api::add_analyzer(&mut state, String::from("ERROR")).unwrap();
    api::add_file(
        &mut state,
        File {
            content: String::from(
                "INFO: started application\nERROR: license expired on 23-04-2017",
            ),
            name: String::from("support_bundle/1354/container/foo.log"),
        },
    );
    api::add_file(
        &mut state,
        File {
            content: String::from(
                "INFO: started application\nERROR: license expired on 23-04-2017",
            ),
            name: String::from("support_bundle/1354/container/bar.log"),
        },
    );
    let all_files = api::get_files(&state);
    assert_eq!(all_files.len(), 2);
    assert!(all_files[0].id.len() > 0);
    assert!(all_files[0].name.len() > 0);
}

#[test]
fn add_new_analyzer() {
    let mut state = WatsonState::new();
    let r = api::add_analyzer(&mut state, String::from("Warning"));
    assert!(r.is_ok());
}

#[test]
fn get_all_analyzers_when_none_have_been_configured() {
    let state = WatsonState::new();
    let analyzers = api::get_analyzers(&state);
    assert!(analyzers.len() == 0);
}

#[test]
fn get_all_analyzers() {
    let mut state = WatsonState::new();
    api::add_analyzer(&mut state, String::from("Warning")).unwrap();
    let analyzers = api::get_analyzers(&state);
    assert!(analyzers.len() == 1);
    assert_eq!(analyzers[0], "Warning");
}

#[test]
fn define_workflow() {
    let mut state = WatsonState::new();
    let request = CreateWorkflow {
        name: String::from("Default Workflow"),
        steps: vec![
            CreateWorkflowItem {
                id: 1,
                regex: String::from("run:received event"),
                context: String::from("repo=([\\w\\-\\/]+)"),
            },
            CreateWorkflowItem {
                id: 2,
                regex: String::from("notifier=github_status build="),
                context: String::from("repo=([\\w\\-\\/]+)"),
            },
        ],
    };
    let id = api::create_workflow(&mut state, request);
    assert!(id.len() > 0);
}

#[test]
fn define_default_workflow_returns_id() {
    let mut state = WatsonState::new();
    let request = CreateWorkflow {
        name: String::from("Default"),
        steps: vec![
            CreateWorkflowItem {
                id: 1,
                regex: String::from("run:received event"),
                context: String::from("repo=([\\w\\-/]+)"),
            },
            CreateWorkflowItem {
                id: 2,
                regex: String::from("notifier=github_status build="),
                context: String::from("repo=([\\w\\-/]+)"),
            },
        ],
    };
    let id = api::create_workflow(&mut state, request);
    assert!(!id.is_empty());
}

#[test]
fn adding_a_pattern_twice_keeps_one_occurrence() {
    let mut state = WatsonState::new();
    api::add_analyzer(&mut state, String::from("INFO")).unwrap();
    api::add_analyzer(&mut state, String::from("INFO")).unwrap();
    let analyzers = api::get_analyzers(&state);
    let occurrences = analyzers.iter().filter(|p| p.as_str() == "INFO").count();
    assert_eq!(occurrences, 1);
    assert_eq!(analyzers.len(), 1);
}

#[test]
fn invalid_pattern_is_rejected_and_store_unchanged() {
    let mut state = WatsonState::new();
    let r = api::add_analyzer(&mut state, String::from("(unclosed"));
    assert!(matches!(r, Err(WatsonError::InvalidPattern)));
    assert_eq!(api::get_analyzers(&state).len(), 0);
}

#[test]
fn identifiers_are_never_reissued() {
    let mut state = WatsonState::new();
    let mut ids = Vec::new();
    for k in 0..5 {
        ids.push(api::add_file(
            &mut state,
            File { content: format!("content {}", k), name: format!("file {}", k) },
        ));
    }
    ids.push(api::create_workflow(
        &mut state,
        CreateWorkflow { name: String::from("w"), steps: Vec::new() },
    ));
    for a in 0..ids.len() {
        for b in (a + 1)..ids.len() {
            assert_ne!(ids[a], ids[b]);
        }
    }
}

#[test]
fn unknown_but_parsable_id_is_not_found() {
    let state = WatsonState::new();
    let r = api::get_file(&state, "123");
    assert!(matches!(r, Err(WatsonError::NotFound)));
}

#[test]
fn findings_are_recomputed_from_current_patterns() {
    let mut state = WatsonState::new();
    let id = api::add_file(
        &mut state,
        File { content: String::from("alpha\nbeta"), name: String::from("log") },
    );
    let before = api::get_file(&state, &id).unwrap();
    assert_eq!(before.findings.len(), 0);
    api::add_analyzer(&mut state, String::from("beta")).unwrap();
    let after = api::get_file(&state, &id).unwrap();
    assert_eq!(after.findings.len(), 1);
    assert_eq!(after.findings[0].line_number, 2);
    assert_eq!(after.findings[0].line, "beta");
}

#[test]
fn trailing_newline_yields_an_empty_final_line() {
    let analyzers = vec![String::from("")];
    let findings = watson::analyzer::analyze("a\n", &analyzers).unwrap();
    assert_eq!(findings.len(), 2);
    assert_eq!(findings[0].line_number, 1);
    assert_eq!(findings[0].line, "a");
    assert_eq!(findings[1].line_number, 2);
    assert_eq!(findings[1].line, "");
}

#[test]
fn empty_pattern_set_yields_no_findings() {
    let analyzers: Vec<String> = Vec::new();
    let findings = watson::analyzer::analyze("a\nb\nc", &analyzers).unwrap();
    assert_eq!(findings.len(), 0);
}

#[test]
fn one_finding_per_line_even_with_many_matching_patterns() {
    let mut state = WatsonState::new();
    api::add_analyzer(&mut state, String::from("IN")).unwrap();
    api::add_analyzer(&mut state, String::from("FO")).unwrap();
    let id = api::add_file(
        &mut state,
        File { content: String::from("INFO"), name: String::from("log") },
    );
    let analyzed = api::get_file(&state, &id).unwrap();
    assert_eq!(analyzed.findings.len(), 1);
    assert_eq!(analyzed.findings[0].line_number, 1);
    assert_eq!(analyzed.findings[0].line, "INFO");
}
