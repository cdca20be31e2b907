//! The state store.
//!
//! One store owns every durable entity: documents, the analyzer pattern set,
//! and workflow definitions. Documents and workflows sit under opaque
//! identifiers issued from a monotonic counter, so a fresh identifier never
//! collides with one issued before. The pattern set holds no duplicates and
//! only patterns the analyzer engine accepts.

use crate::analyzer::{patterns_of, regex_valid};
use vstd::prelude::*;

verus! {

/// A stored document: a free-form name (typically a path-like label) and a
/// text content of arbitrary length.
#[derive(Debug, Clone)]
pub struct File {
    pub content: String,
    pub name: String,
}

/// A document's identifier in string form together with its name; what a
/// listing returns, content omitted.
#[derive(Debug, Clone)]
pub struct FileMetadata {
    pub id: String,
    pub name: String,
}

/// One stored step of a workflow definition: a caller-supplied step number, a
/// pattern and a context pattern, both stored verbatim.
#[derive(Debug, Clone)]
pub struct WorkflowItem {
    pub id: u32,
    pub regex: String,
    pub context: String,
}

/// A named, ordered sequence of stored steps. Stored only; nothing executes
/// it.
#[derive(Debug, Clone)]
pub struct Workflow {
    pub name: String,
    pub steps: Vec<WorkflowItem>,
}

/// A document under its identifier.
pub struct FileRecord {
    pub id: u64,
    pub file: File,
}

/// A workflow definition under its identifier.
pub struct WorkflowRecord {
    pub id: u64,
    pub workflow: Workflow,
}

/// The in-memory state store, plus the counter the next identifier is issued
/// from.
pub struct WatsonState {
    pub file_list: Vec<FileRecord>,
    pub analyzers: Vec<String>,
    pub workflows: Vec<WorkflowRecord>,
    pub next_id: u64,
}

/// The model of a workflow step sequence: step number, pattern, context.
pub open spec fn steps_view(steps: Seq<WorkflowItem>) -> Seq<(u32, Seq<char>, Seq<char>)> {
    steps.map_values(|s: WorkflowItem| (s.id, s.regex@, s.context@))
}

/// The pattern set after adding one pattern: unchanged when the pattern is
/// already present, extended by it otherwise.
pub open spec fn spec_add_pattern(patterns: Seq<Seq<char>>, p: Seq<char>) -> Seq<Seq<char>> {
    if patterns.contains(p) {
        patterns
    } else {
        patterns.push(p)
    }
}

/// How often a pattern occurs in a pattern sequence.
pub open spec fn count_occurrences(patterns: Seq<Seq<char>>, p: Seq<char>) -> int
    decreases patterns.len(),
{
    if patterns.len() == 0 {
        0
    } else {
        count_occurrences(patterns.drop_last(), p) + if patterns.last() == p {
            1int
        } else {
            0int
        }
    }
}

proof fn lemma_count_contains(patterns: Seq<Seq<char>>, p: Seq<char>)
    ensures
        count_occurrences(patterns, p) >= 0,
        count_occurrences(patterns, p) >= 1 <==> patterns.contains(p),
    decreases patterns.len(),
{
    if patterns.len() > 0 {
        lemma_count_contains(patterns.drop_last(), p);
        if patterns.contains(p) {
            let i = choose|i: int| 0 <= i < patterns.len() && patterns[i] == p;
            if i < patterns.len() - 1 {
                assert(patterns.drop_last()[i] == p);
                assert(patterns.drop_last().contains(p));
            }
        }
        if patterns.drop_last().contains(p) {
            let i = choose|i: int| 0 <= i < patterns.len() - 1 && patterns.drop_last()[i] == p;
            assert(patterns[i] == p);
        }
    }
}

proof fn lemma_count_at_most_one(patterns: Seq<Seq<char>>, p: Seq<char>)
    requires
        forall|i: int, j: int|
            0 <= i < j < patterns.len() ==> #[trigger] patterns[i] != #[trigger] patterns[j],
    ensures
        count_occurrences(patterns, p) <= 1,
    decreases patterns.len(),
{
    if patterns.len() > 0 {
        let pre = patterns.drop_last();
        assert(forall|i: int, j: int|
            0 <= i < j < pre.len() ==> #[trigger] pre[i] != #[trigger] pre[j]);
        lemma_count_at_most_one(pre, p);
        lemma_count_contains(pre, p);
        if patterns.last() == p {
            if pre.contains(p) {
                let i = choose|i: int| 0 <= i < pre.len() && pre[i] == p;
                assert(patterns[i] == patterns[patterns.len() - 1]);
                assert(false);
            }
        }
    }
}

/// Law: adding a pattern is idempotent. Adding the same pattern a second time
/// changes nothing, and after one add a duplicate-free pattern set holds
/// exactly one occurrence of the pattern.
pub proof fn lemma_add_pattern_idempotent(patterns: Seq<Seq<char>>, p: Seq<char>)
    requires
        forall|i: int, j: int|
            0 <= i < j < patterns.len() ==> #[trigger] patterns[i] != #[trigger] patterns[j],
    ensures
        spec_add_pattern(spec_add_pattern(patterns, p), p) == spec_add_pattern(patterns, p),
        count_occurrences(spec_add_pattern(patterns, p), p) == 1,
{
    let once = spec_add_pattern(patterns, p);
    if patterns.contains(p) {
        lemma_count_contains(patterns, p);
        lemma_count_at_most_one(patterns, p);
    } else {
        assert(patterns.push(p)[patterns.len() as int] == p);
        assert(once.contains(p));
        lemma_count_contains(patterns, p);
        assert(once.drop_last() =~= patterns);
        assert(count_occurrences(once, p) == count_occurrences(patterns, p) + 1);
    }
}

/// Law: a well-formed store never re-issues an identifier. Every identifier
/// a live entity sits under lies strictly below the counter, so the counter's
/// value — the identifier the next creation returns — was issued to nothing.
/// Identifiers only ever enter the store from the counter, which each
/// creation moves strictly upward, so this freshness carries over the whole
/// process lifetime.
pub proof fn lemma_next_identifier_is_fresh(s: WatsonState)
    requires
        s.wf(),
    ensures
        !s.issued(s.next_id),
        forall|id: u64| s.issued(id) ==> id < s.next_id,
{
    assert forall|id: u64| s.issued(id) implies id < s.next_id by {
        if s.file_ids().contains(id) {
            let i = choose|i: int| 0 <= i < s.file_ids().len() && s.file_ids()[i] == id;
            assert(s.file_ids()[i] == s.file_list@[i].id);
        } else {
            let i = choose|i: int|
                0 <= i < s.workflow_ids().len() && s.workflow_ids()[i] == id;
            assert(s.workflow_ids()[i] == s.workflows@[i].id);
        }
    }
}

impl WatsonState {
    /// The analyzer pattern set as a sequence of character sequences, in
    /// insertion order.
    pub open spec fn patterns_view(self) -> Seq<Seq<char>> {
        patterns_of(self.analyzers@)
    }

    /// The identifiers the documents sit under, in storage order.
    pub open spec fn file_ids(self) -> Seq<u64> {
        self.file_list@.map_values(|e: FileRecord| e.id)
    }

    /// The identifiers the workflow definitions sit under, in storage order.
    pub open spec fn workflow_ids(self) -> Seq<u64> {
        self.workflows@.map_values(|e: WorkflowRecord| e.id)
    }

    /// Whether an identifier was issued to any live entity.
    pub open spec fn issued(self, id: u64) -> bool {
        self.file_ids().contains(id) || self.workflow_ids().contains(id)
    }

    /// Well-formedness: every issued identifier lies below the counter,
    /// identifiers are unique, and the pattern set is duplicate-free and
    /// holds only patterns the analyzer accepts.
    pub open spec fn wf(self) -> bool {
        &&& forall|i: int|
            0 <= i < self.file_list@.len() ==> (#[trigger] self.file_list@[i]).id < self.next_id
        &&& forall|i: int|
            0 <= i < self.workflows@.len() ==> (#[trigger] self.workflows@[i]).id < self.next_id
        &&& forall|i: int, j: int|
            0 <= i < j < self.file_list@.len() ==> (#[trigger] self.file_list@[i]).id != (
            #[trigger] self.file_list@[j]).id
        &&& forall|i: int, j: int|
            0 <= i < j < self.workflows@.len() ==> (#[trigger] self.workflows@[i]).id != (
            #[trigger] self.workflows@[j]).id
        &&& forall|i: int, j: int|
            0 <= i < j < self.analyzers@.len() ==> (#[trigger] self.analyzers@[i])@ != (
            #[trigger] self.analyzers@[j])@
        &&& forall|i: int|
            0 <= i < self.analyzers@.len() ==> regex_valid((#[trigger] self.analyzers@[i])@)
    }

    /// A fresh, empty store.
    pub fn new() -> (s: WatsonState)
        ensures
            s.wf(),
            s.file_list@ =~= Seq::<FileRecord>::empty(),
            s.analyzers@ =~= Seq::<String>::empty(),
            s.workflows@ =~= Seq::<WorkflowRecord>::empty(),
            s.next_id == 0,
    {
        WatsonState {
            file_list: Vec::new(),
            analyzers: Vec::new(),
            workflows: Vec::new(),
            next_id: 0,
        }
    }
}

} // verus!
