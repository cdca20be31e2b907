//! The core facade.
//!
//! These are the operations the transport shim calls, one per request kind.
//! Each takes the state store directly; the shim owns the lock around the
//! store and the snapshot write-through after every mutating call. Every
//! operation states exactly what it returns and how it changes the store.

use crate::analyzer;
use crate::analyzer::{
    findings_view, regex_set_compiles, regex_valid, spec_findings, spec_lines, Finding,
};
use crate::ids::{parse_id, render_id, spec_parse_id, spec_render_id};
use crate::state::{
    spec_add_pattern, steps_view, File, FileMetadata, FileRecord, WatsonState, Workflow,
    WorkflowItem, WorkflowRecord,
};
use crate::WatsonError;
use vstd::prelude::*;

verus! {

/// A document together with the findings of scanning its content against the
/// pattern set current at read time.
pub struct AnalyzedFile {
    pub file: File,
    pub findings: Vec<Finding>,
}

/// The request body that adds one analyzer pattern.
pub struct CreateAnalyzer {
    pub analyzer: String,
}

/// The request body that defines a workflow.
pub struct CreateWorkflow {
    pub name: String,
    pub steps: Vec<CreateWorkflowItem>,
}

/// One step of a workflow definition request.
pub struct CreateWorkflowItem {
    pub id: u32,
    pub regex: String,
    pub context: String,
}

/// The model of a workflow request's step sequence.
pub open spec fn create_steps_view(steps: Seq<CreateWorkflowItem>) -> Seq<
    (u32, Seq<char>, Seq<char>),
> {
    steps.map_values(|s: CreateWorkflowItem| (s.id, s.regex@, s.context@))
}

/// Liveness probe: reports that the service is up.
pub fn status() -> (r: &'static str)
    ensures
        r@ == "alive"@,
{
    "alive"
}

/// Whether a document with the given identifier is stored.
pub open spec fn has_file(files: Seq<FileRecord>, id: u64) -> bool {
    exists|i: int| 0 <= i < files.len() && (#[trigger] files[i]).id == id
}

/// Store a new document and return its fresh identifier, rendered as a
/// string. The identifier differs from every identifier the store has ever
/// issued; nothing else of the store changes.
pub fn add_file(state: &mut WatsonState, file: File) -> (r: String)
    requires
        old(state).wf(),
        old(state).next_id < u64::MAX,
    ensures
        final(state).wf(),
        r@ == spec_render_id(old(state).next_id),
        !old(state).issued(old(state).next_id),
        final(state).next_id == old(state).next_id + 1,
        final(state).file_list@ == old(state).file_list@.push(
            (FileRecord { id: old(state).next_id, file }),
        ),
        final(state).analyzers@ == old(state).analyzers@,
        final(state).workflows@ == old(state).workflows@,
{
    let id = state.next_id;
    proof {
        assert(!old(state).file_ids().contains(id)) by {
            assert forall|i: int| 0 <= i < old(state).file_ids().len() implies old(
                state,
            ).file_ids()[i] != id by {
                assert(old(state).file_ids()[i] == old(state).file_list@[i].id);
            }
        }
        assert(!old(state).workflow_ids().contains(id)) by {
            assert forall|i: int| 0 <= i < old(state).workflow_ids().len() implies old(
                state,
            ).workflow_ids()[i] != id by {
                assert(old(state).workflow_ids()[i] == old(state).workflows@[i].id);
            }
        }
    }
    state.next_id = state.next_id + 1;
    state.file_list.push(FileRecord { id, file });
    render_id(id)
}

/// List every stored document's identifier and name, content omitted, in
/// storage order.
pub fn get_files(state: &WatsonState) -> (r: Vec<FileMetadata>)
    ensures
        r@.len() == state.file_list@.len(),
        forall|i: int|
            0 <= i < r@.len() ==> (#[trigger] r@[i]).id@ == spec_render_id(
                state.file_list@[i].id,
            ) && r@[i].name@ == state.file_list@[i].file.name@,
{
    let mut r: Vec<FileMetadata> = Vec::new();
    let mut i: usize = 0;
    while i < state.file_list.len()
        invariant
            0 <= i <= state.file_list@.len(),
            r@.len() == i,
            forall|j: int|
                0 <= j < i ==> (#[trigger] r@[j]).id@ == spec_render_id(state.file_list@[j].id)
                    && r@[j].name@ == state.file_list@[j].file.name@,
        decreases state.file_list@.len() - i,
    {
        let record = &state.file_list[i];
        let meta = FileMetadata { id: render_id(record.id), name: record.file.name.clone() };
        r.push(meta);
        i = i + 1;
    }
    r
}

/// Look a document up by its identifier string and scan its content against
/// the pattern set current now. An identifier that does not parse, or that no
/// document sits under, is reported as NotFound. Where the document exists
/// but the pattern set does not compile as one matcher, the internal compile
/// failure surfaces as InvalidPattern.
pub fn get_file(state: &WatsonState, id: &str) -> (r: Result<AnalyzedFile, WatsonError>)
    requires
        state.wf(),
    ensures
        (r is Err && r->Err_0 == WatsonError::NotFound) <==> !(spec_parse_id(id@) is Some
            && has_file(state.file_list@, spec_parse_id(id@)->0)),
        r is Ok <==> (spec_parse_id(id@) is Some && has_file(
            state.file_list@,
            spec_parse_id(id@)->0,
        ) && regex_set_compiles(state.patterns_view())),
        r is Err ==> (r->Err_0 == WatsonError::NotFound || r->Err_0
            == WatsonError::InvalidPattern),
        r is Ok ==> exists|i: int|
            0 <= i < state.file_list@.len() && (#[trigger] state.file_list@[i]).id == spec_parse_id(
                id@,
            )->0 && (r->Ok_0).file.name@ == state.file_list@[i].file.name@
                && (r->Ok_0).file.content@ == state.file_list@[i].file.content@ && findings_view(
                (r->Ok_0).findings@,
            ) == spec_findings(
                state.patterns_view(),
                spec_lines(state.file_list@[i].file.content@),
            ),
{
    let parsed = parse_id(id);
    match parsed {
        None => Err(WatsonError::NotFound),
        Some(n) => {
            let mut i: usize = 0;
            while i < state.file_list.len()
                invariant
                    0 <= i <= state.file_list@.len(),
                    forall|j: int| 0 <= j < i ==> (#[trigger] state.file_list@[j]).id != n,
                decreases state.file_list@.len() - i,
            {
                if state.file_list[i].id == n {
                    let record = &state.file_list[i];
                    let file = File {
                        content: record.file.content.clone(),
                        name: record.file.name.clone(),
                    };
                    let scanned = analyzer::analyze(file.content.as_str(), &state.analyzers);
                    match scanned {
                        Ok(findings) => {
                            proof {
                                assert((state.file_list@[i as int]).id == spec_parse_id(id@)->0);
                                assert(has_file(state.file_list@, n));
                                assert(file.name@ == state.file_list@[i as int].file.name@);
                                assert(file.content@ == state.file_list@[i as int].file.content@);
                                assert(findings_view(findings@) == spec_findings(
                                    state.patterns_view(),
                                    spec_lines(state.file_list@[i as int].file.content@),
                                ));
                            }
                            return Ok(AnalyzedFile { file, findings });
                        },
                        Err(e) => {
                            // the document exists, but the pattern set did
                            // not compile into one matcher
                            proof {
                                assert(has_file(state.file_list@, n));
                                assert(!regex_set_compiles(state.patterns_view()));
                            }
                            return Err(e);
                        },
                    }
                }
                i = i + 1;
            }
            Err(WatsonError::NotFound)
        },
    }
}

/// Add one analyzer pattern. The pattern is validated first: an uncompilable
/// pattern is rejected as InvalidPattern and the store stays unchanged. A
/// pattern already present is a no-op, so the set never holds duplicates.
pub fn add_analyzer(state: &mut WatsonState, analyzer: String) -> (r: Result<(), WatsonError>)
    requires
        old(state).wf(),
    ensures
        final(state).wf(),
        r is Ok <==> regex_valid(analyzer@),
        r is Err ==> r->Err_0 == WatsonError::InvalidPattern && *final(state) == *old(state),
        r is Ok ==> final(state).patterns_view() == spec_add_pattern(
            old(state).patterns_view(),
            analyzer@,
        ),
        final(state).file_list@ == old(state).file_list@,
        final(state).workflows@ == old(state).workflows@,
        final(state).next_id == old(state).next_id,
{
    if !crate::analyzer::pattern_compiles(analyzer.as_str()) {
        return Err(WatsonError::InvalidPattern);
    }
    let mut i: usize = 0;
    while i < state.analyzers.len()
        invariant
            0 <= i <= state.analyzers@.len(),
            forall|j: int| 0 <= j < i ==> (#[trigger] state.analyzers@[j])@ != analyzer@,
        decreases state.analyzers@.len() - i,
    {
        if state.analyzers[i] == analyzer {
            proof {
                assert(state.patterns_view()[i as int] == analyzer@);
                assert(state.patterns_view().contains(analyzer@));
            }
            return Ok(());
        }
        i = i + 1;
    }
    proof {
        assert(!old(state).patterns_view().contains(analyzer@)) by {
            assert forall|j: int| 0 <= j < old(state).patterns_view().len() implies old(
                state,
            ).patterns_view()[j] != analyzer@ by {
                assert(old(state).patterns_view()[j] == old(state).analyzers@[j]@);
            }
        }
    }
    let ghost prev = state.patterns_view();
    state.analyzers.push(analyzer);
    proof {
        assert(state.patterns_view() =~= prev.push(analyzer@));
    }
    Ok(())
}

/// List the analyzer pattern set, in insertion order.
pub fn get_analyzers(state: &WatsonState) -> (r: Vec<String>)
    ensures
        r@.map_values(|s: String| s@) == state.patterns_view(),
{
    let mut r: Vec<String> = Vec::new();
    let mut i: usize = 0;
    while i < state.analyzers.len()
        invariant
            0 <= i <= state.analyzers@.len(),
            r@.len() == i,
            forall|j: int| 0 <= j < i ==> (#[trigger] r@[j])@ == state.analyzers@[j]@,
        decreases state.analyzers@.len() - i,
    {
        let p = state.analyzers[i].clone();
        r.push(p);
        i = i + 1;
    }
    proof {
        assert(r@.map_values(|s: String| s@) =~= state.patterns_view());
    }
    r
}

/// Define a workflow: store its name and steps verbatim under a fresh
/// identifier and return that identifier, rendered as a string. Step
/// semantics are not validated; nothing else of the store changes.
pub fn create_workflow(state: &mut WatsonState, request: CreateWorkflow) -> (r: String)
    requires
        old(state).wf(),
        old(state).next_id < u64::MAX,
    ensures
        final(state).wf(),
        r@ == spec_render_id(old(state).next_id),
        !old(state).issued(old(state).next_id),
        final(state).next_id == old(state).next_id + 1,
        final(state).workflows@.len() == old(state).workflows@.len() + 1,
        forall|i: int|
            0 <= i < old(state).workflows@.len() ==> #[trigger] final(state).workflows@[i] == old(
                state,
            ).workflows@[i],
        final(state).workflows@.last().id == old(state).next_id,
        final(state).workflows@.last().workflow.name@ == request.name@,
        steps_view(final(state).workflows@.last().workflow.steps@) == create_steps_view(
            request.steps@,
        ),
        final(state).file_list@ == old(state).file_list@,
        final(state).analyzers@ == old(state).analyzers@,
{
    let id = state.next_id;
    proof {
        assert(!old(state).file_ids().contains(id)) by {
            assert forall|i: int| 0 <= i < old(state).file_ids().len() implies old(
                state,
            ).file_ids()[i] != id by {
                assert(old(state).file_ids()[i] == old(state).file_list@[i].id);
            }
        }
        assert(!old(state).workflow_ids().contains(id)) by {
            assert forall|i: int| 0 <= i < old(state).workflow_ids().len() implies old(
                state,
            ).workflow_ids()[i] != id by {
                assert(old(state).workflow_ids()[i] == old(state).workflows@[i].id);
            }
        }
    }
    state.next_id = state.next_id + 1;
    let mut steps: Vec<WorkflowItem> = Vec::new();
    let mut i: usize = 0;
    while i < request.steps.len()
        invariant
            0 <= i <= request.steps@.len(),
            steps@.len() == i,
            forall|j: int|
                0 <= j < i ==> (#[trigger] steps@[j]).id == request.steps@[j].id
                    && steps@[j].regex@ == request.steps@[j].regex@ && steps@[j].context@
                    == request.steps@[j].context@,
        decreases request.steps@.len() - i,
    {
        let step = &request.steps[i];
        let item = WorkflowItem {
            id: step.id,
            regex: step.regex.clone(),
            context: step.context.clone(),
        };
        steps.push(item);
        i = i + 1;
    }
    let workflow = Workflow { name: request.name, steps };
    state.workflows.push(WorkflowRecord { id, workflow });
    proof {
        assert(steps_view(final(state).workflows@.last().workflow.steps@) =~= create_steps_view(
            request.steps@,
        ));
    }
    render_id(id)
}

} // verus!
