use watson::api::{add_analyzer, add_file, create_workflow, get_analyzers, get_file, get_files};
use watson::api::{CreateWorkflow, CreateWorkflowItem};
use watson::ids::{parse_id, render_id};
use watson::serializer::{
    decode_state, deserialize, encode_state, serialize, to_serializable_file,
    to_serializable_state, to_serializable_workflow, to_watson_state, SerializableFile,
    SerializableState, SerializableWorkflow, SerializableWorkflowItem,
};
use watson::state::{File, WatsonState, Workflow, WorkflowItem};
use watson::WatsonError;

#[test]
fn render_and_parse_identifiers() {
    assert_eq!(render_id(0), "0");
    assert_eq!(render_id(42), "42");
    assert_eq!(render_id(18446744073709551615), "18446744073709551615");
    assert_eq!(parse_id("0"), Some(0));
    assert_eq!(parse_id("42"), Some(42));
    assert_eq!(parse_id(&render_id(123456789)), Some(123456789));
    assert_eq!(parse_id(""), None);
    assert_eq!(parse_id("abc"), None);
    assert_eq!(parse_id("007"), None);
    assert_eq!(parse_id("12x"), None);
    assert_eq!(parse_id("18446744073709551616"), None);
}

#[test]
fn snapshot_round_trip_reproduces_the_store() {
    let mut state = WatsonState::new();
    add_analyzer(&mut state, String::from("INFO")).unwrap();
    add_analyzer(&mut state, String::from("ERROR")).unwrap();
    let file_id = add_file(
        &mut state,
        File {
            content: String::from("INFO: started\nERROR: expired"),
            name: String::from("a.log"),
        },
    );
    create_workflow(
        &mut state,
        CreateWorkflow {
            name: String::from("Default"),
            steps: vec![CreateWorkflowItem {
                id: 1,
                regex: String::from("run:received event"),
                context: String::from("repo=([\\w\\-/]+)"),
            }],
        },
    );
    let bytes = serialize(&state);
    let reloaded = deserialize(&bytes).unwrap();
    let files = get_files(&reloaded);
    assert_eq!(files.len(), 1);
    assert_eq!(files[0].name, "a.log");
    let analyzed = get_file(&reloaded, &file_id).unwrap();
    assert_eq!(analyzed.file.content, "INFO: started\nERROR: expired");
    let mut analyzers = get_analyzers(&reloaded);
    analyzers.sort();
    assert_eq!(analyzers, vec![String::from("ERROR"), String::from("INFO")]);
    assert_eq!(reloaded.workflows.len(), 1);
    assert_eq!(reloaded.workflows[0].workflow.name, "Default");
    assert_eq!(reloaded.workflows[0].workflow.steps.len(), 1);
    assert_eq!(reloaded.workflows[0].workflow.steps[0].id, 1);
    assert_eq!(reloaded.workflows[0].workflow.steps[0].regex, "run:received event");
    assert_eq!(reloaded.workflows[0].workflow.steps[0].context, "repo=([\\w\\-/]+)");
}

#[test]
fn empty_store_round_trips() {
    let state = WatsonState::new();
    let bytes = serialize(&state);
    let reloaded = deserialize(&bytes).unwrap();
    assert_eq!(get_files(&reloaded).len(), 0);
    assert_eq!(get_analyzers(&reloaded).len(), 0);
    assert_eq!(reloaded.workflows.len(), 0);
}

#[test]
fn malformed_snapshot_fails_as_a_whole() {
    let junk = vec![1u8, 2, 3];
    assert!(matches!(deserialize(&junk), Err(WatsonError::DecodeFailure)));
    let empty: Vec<u8> = Vec::new();
    assert!(matches!(deserialize(&empty), Err(WatsonError::DecodeFailure)));
}

#[test]
fn trailing_bytes_are_rejected() {
    let state = WatsonState::new();
    let mut bytes = serialize(&state);
    bytes.push(0);
    assert!(matches!(deserialize(&bytes), Err(WatsonError::DecodeFailure)));
}

#[test]
fn truncated_snapshot_is_rejected() {
    let mut state = WatsonState::new();
    add_file(
        &mut state,
        File { content: String::from("hello"), name: String::from("n") },
    );
    let bytes = serialize(&state);
    let truncated: Vec<u8> = bytes[..bytes.len() - 1].to_vec();
    assert!(matches!(deserialize(&truncated), Err(WatsonError::DecodeFailure)));
}

#[test]
fn bad_wire_keys_are_dropped_silently() {
    let wire = SerializableState {
        file_list: vec![
            (
                String::from("not-an-id"),
                SerializableFile { content: String::from("lost"), name: String::from("l") },
            ),
            (
                String::from("7"),
                SerializableFile { content: String::from("kept"), name: String::from("k") },
            ),
            (
                String::from("7"),
                SerializableFile { content: String::from("dup"), name: String::from("d") },
            ),
        ],
        workflow_list: vec![(
            String::from("xyz"),
            SerializableWorkflow { name: String::from("dropped"), steps: Vec::new() },
        )],
        analyzers: vec![
            String::from("INFO"),
            String::from("(bad"),
            String::from("INFO"),
        ],
    };
    let state = to_watson_state(wire);
    assert_eq!(state.file_list.len(), 1);
    assert_eq!(state.file_list[0].id, 7);
    assert_eq!(state.file_list[0].file.content, "kept");
    assert_eq!(state.workflows.len(), 0);
    let analyzers = get_analyzers(&state);
    assert_eq!(analyzers, vec![String::from("INFO")]);
    assert!(state.next_id > 7);
}

#[test]
fn encode_then_decode_yields_the_wire_structure() {
    let wire = SerializableState {
        file_list: vec![(
            String::from("0"),
            SerializableFile {
                content: String::from("héllo → wörld"),
                name: String::from("ünïcode.log"),
            },
        )],
        workflow_list: Vec::new(),
        analyzers: vec![String::from("p")],
    };
    let bytes = encode_state(&wire);
    let decoded = decode_state(&bytes).unwrap();
    assert_eq!(decoded.file_list.len(), 1);
    assert_eq!(decoded.file_list[0].0, "0");
    assert_eq!(decoded.file_list[0].1.content, "héllo → wörld");
    assert_eq!(decoded.file_list[0].1.name, "ünïcode.log");
    assert_eq!(decoded.analyzers, vec![String::from("p")]);
}

#[test]
fn wire_conversions_copy_every_field() {
    let file = File { content: String::from("c"), name: String::from("n") };
    let wire_file = to_serializable_file(&file);
    assert_eq!(wire_file.content, "c");
    assert_eq!(wire_file.name, "n");
    let workflow = Workflow {
        name: String::from("w"),
        steps: vec![WorkflowItem {
            id: 3,
            regex: String::from("r"),
            context: String::from("x"),
        }],
    };
    let wire_workflow = to_serializable_workflow(&workflow);
    assert_eq!(wire_workflow.name, "w");
    assert_eq!(wire_workflow.steps.len(), 1);
    assert_eq!(wire_workflow.steps[0].id, 3);
    assert_eq!(wire_workflow.steps[0].regex, "r");
    assert_eq!(wire_workflow.steps[0].context, "x");
    let mut state = WatsonState::new();
    add_analyzer(&mut state, String::from("INFO")).unwrap();
    add_file(&mut state, File { content: String::from("c"), name: String::from("n") });
    let wire = to_serializable_state(&state);
    assert_eq!(wire.file_list.len(), 1);
    assert_eq!(wire.file_list[0].0, "0");
    assert_eq!(wire.analyzers, vec![String::from("INFO")]);
    assert_eq!(wire.workflow_list.len(), 0);
}

#[test]
fn one_wire_item_per_serializable_workflow_item() {
    let item = SerializableWorkflowItem {
        id: 9,
        regex: String::from("re"),
        context: String::from("cx"),
    };
    let wire = SerializableState {
        file_list: Vec::new(),
        workflow_list: vec![(
            String::from("1"),
            SerializableWorkflow { name: String::from("wf"), steps: vec![item] },
        )],
        analyzers: Vec::new(),
    };
    let bytes = encode_state(&wire);
    let decoded = decode_state(&bytes).unwrap();
    assert_eq!(decoded.workflow_list.len(), 1);
    assert_eq!(decoded.workflow_list[0].0, "1");
    assert_eq!(decoded.workflow_list[0].1.name, "wf");
    assert_eq!(decoded.workflow_list[0].1.steps.len(), 1);
    assert_eq!(decoded.workflow_list[0].1.steps[0].id, 9);
    assert_eq!(decoded.workflow_list[0].1.steps[0].regex, "re");
    assert_eq!(decoded.workflow_list[0].1.steps[0].context, "cx");
}
