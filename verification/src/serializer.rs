//! The persistence codec.
//!
//! A snapshot of the whole state store is converted to a wire structure —
//! maps from identifier-rendered-as-string to value for documents and
//! workflow definitions, and the pattern set directly — and the wire
//! structure to a flat byte sequence, written as three length-prefixed
//! lists. Loading runs the other way: the byte sequence is decoded back into
//! the wire structure (a buffer the decoder rejects fails as a whole), and
//! rehydration parses each string key back into an identifier, silently
//! dropping an entry whose key does not parse, an entry whose identifier is
//! already taken, and a pattern the analyzer would reject. Encoding then
//! decoding yields the wire structure back exactly, and a well-formed store
//! survives the whole trip unchanged.

use crate::analyzer::{pattern_compiles, patterns_of, regex_valid};
use crate::codec::{
    dec_str, dec_u32, dec_u64, enc_str, lemma_dec_str_roundtrip, lemma_split_window, put_str,
    put_u32, put_u64, spec_le32, spec_le64,
};
use crate::ids::{lemma_parse_render_id, parse_id, render_id, spec_parse_id, spec_render_id};
use crate::state::{
    File, FileRecord, WatsonState, Workflow, WorkflowItem, WorkflowRecord,
};
use crate::WatsonError;
use vstd::prelude::*;

verus! {

/// A document on the wire.
pub struct SerializableFile {
    pub content: String,
    pub name: String,
}

/// One workflow step on the wire.
pub struct SerializableWorkflowItem {
    pub id: u32,
    pub regex: String,
    pub context: String,
}

/// A workflow definition on the wire.
pub struct SerializableWorkflow {
    pub name: String,
    pub steps: Vec<SerializableWorkflowItem>,
}

/// The whole wire structure: documents and workflow definitions under their
/// rendered identifiers, and the pattern set.
pub struct SerializableState {
    pub file_list: Vec<(String, SerializableFile)>,
    pub workflow_list: Vec<(String, SerializableWorkflow)>,
    pub analyzers: Vec<String>,
}

/// The model of a document on the wire.
#[verifier::ext_equal]
pub struct FileModel {
    pub content: Seq<char>,
    pub name: Seq<char>,
}

/// The model of one workflow step on the wire.
#[verifier::ext_equal]
pub struct ItemModel {
    pub id: u32,
    pub regex: Seq<char>,
    pub context: Seq<char>,
}

/// The model of a workflow definition on the wire.
#[verifier::ext_equal]
pub struct WorkflowModel {
    pub name: Seq<char>,
    pub steps: Seq<ItemModel>,
}

/// The model of the whole wire structure.
#[verifier::ext_equal]
pub struct StateModel {
    pub files: Seq<(Seq<char>, FileModel)>,
    pub workflows: Seq<(Seq<char>, WorkflowModel)>,
    pub analyzers: Seq<Seq<char>>,
}

impl SerializableFile {
    /// The model of this wire document.
    pub open spec fn model(self) -> FileModel {
        FileModel { content: self.content@, name: self.name@ }
    }
}

impl SerializableWorkflowItem {
    /// The model of this wire step.
    pub open spec fn model(self) -> ItemModel {
        ItemModel { id: self.id, regex: self.regex@, context: self.context@ }
    }
}

impl SerializableWorkflow {
    /// The model of this wire workflow.
    pub open spec fn model(self) -> WorkflowModel {
        WorkflowModel { name: self.name@, steps: items_model(self.steps@) }
    }
}

/// The model of a document entry list.
pub open spec fn file_entries_model(v: Seq<(String, SerializableFile)>) -> Seq<
    (Seq<char>, FileModel),
> {
    v.map_values(|e: (String, SerializableFile)| (e.0@, e.1.model()))
}

/// The model of a workflow entry list.
pub open spec fn workflow_entries_model(v: Seq<(String, SerializableWorkflow)>) -> Seq<
    (Seq<char>, WorkflowModel),
> {
    v.map_values(|e: (String, SerializableWorkflow)| (e.0@, e.1.model()))
}

/// The model of a string list.
pub open spec fn strs_model(v: Seq<String>) -> Seq<Seq<char>> {
    v.map_values(|p: String| p@)
}

/// The model of a wire step list.
pub open spec fn items_model(v: Seq<SerializableWorkflowItem>) -> Seq<ItemModel> {
    v.map_values(|it: SerializableWorkflowItem| it.model())
}

impl SerializableState {
    /// The model of the whole wire structure.
    pub open spec fn model(self) -> StateModel {
        StateModel {
            files: file_entries_model(self.file_list@),
            workflows: workflow_entries_model(self.workflow_list@),
            analyzers: strs_model(self.analyzers@),
        }
    }
}

// ---- sizes: every count and string length must fit the length prefix ----

/// A string short enough for its length prefix.
pub open spec fn str_fits(s: Seq<char>) -> bool {
    s.len() <= u64::MAX
}

/// Wire documents short enough to encode.
pub open spec fn files_fit(v: Seq<(Seq<char>, FileModel)>) -> bool {
    &&& v.len() <= u64::MAX
    &&& forall|i: int|
        0 <= i < v.len() ==> str_fits((#[trigger] v[i]).0) && str_fits(v[i].1.content)
            && str_fits(v[i].1.name)
}

/// Wire steps short enough to encode.
pub open spec fn items_fit(v: Seq<ItemModel>) -> bool {
    &&& v.len() <= u64::MAX
    &&& forall|i: int|
        0 <= i < v.len() ==> str_fits((#[trigger] v[i]).regex) && str_fits(v[i].context)
}

/// Wire workflows short enough to encode.
pub open spec fn workflows_fit(v: Seq<(Seq<char>, WorkflowModel)>) -> bool {
    &&& v.len() <= u64::MAX
    &&& forall|i: int|
        0 <= i < v.len() ==> str_fits((#[trigger] v[i]).0) && str_fits(v[i].1.name) && items_fit(
            v[i].1.steps,
        )
}

/// Pattern strings short enough to encode.
pub open spec fn strs_fit(v: Seq<Seq<char>>) -> bool {
    &&& v.len() <= u64::MAX
    &&& forall|i: int| 0 <= i < v.len() ==> str_fits(#[trigger] v[i])
}

/// A wire model short enough to encode.
pub open spec fn model_fits(m: StateModel) -> bool {
    files_fit(m.files) && workflows_fit(m.workflows) && strs_fit(m.analyzers)
}

// ---- the encoding ----

/// The encoding of one wire document: content, then name.
pub open spec fn enc_file(f: FileModel) -> Seq<u8> {
    enc_str(f.content) + enc_str(f.name)
}

/// The encoding of a document list: each entry is its key, then the document.
pub open spec fn enc_files(v: Seq<(Seq<char>, FileModel)>) -> Seq<u8>
    decreases v.len(),
{
    if v.len() == 0 {
        Seq::empty()
    } else {
        enc_str(v.first().0) + enc_file(v.first().1) + enc_files(v.drop_first())
    }
}

/// The encoding of one wire step: its number, pattern, and context.
pub open spec fn enc_item(it: ItemModel) -> Seq<u8> {
    spec_le32(it.id) + enc_str(it.regex) + enc_str(it.context)
}

/// The encoding of a step list.
pub open spec fn enc_items(v: Seq<ItemModel>) -> Seq<u8>
    decreases v.len(),
{
    if v.len() == 0 {
        Seq::empty()
    } else {
        enc_item(v.first()) + enc_items(v.drop_first())
    }
}

/// The encoding of one wire workflow: its name, then its counted steps.
pub open spec fn enc_workflow(w: WorkflowModel) -> Seq<u8> {
    enc_str(w.name) + spec_le64(w.steps.len() as u64) + enc_items(w.steps)
}

/// The encoding of a workflow list: each entry is its key, then the workflow.
pub open spec fn enc_workflows(v: Seq<(Seq<char>, WorkflowModel)>) -> Seq<u8>
    decreases v.len(),
{
    if v.len() == 0 {
        Seq::empty()
    } else {
        enc_str(v.first().0) + enc_workflow(v.first().1) + enc_workflows(v.drop_first())
    }
}

/// The encoding of a string list.
pub open spec fn enc_strs(v: Seq<Seq<char>>) -> Seq<u8>
    decreases v.len(),
{
    if v.len() == 0 {
        Seq::empty()
    } else {
        enc_str(v.first()) + enc_strs(v.drop_first())
    }
}

/// The encoding of the whole wire structure: three counted lists.
pub open spec fn enc_state(m: StateModel) -> Seq<u8> {
    spec_le64(m.files.len() as u64) + enc_files(m.files) + spec_le64(m.workflows.len() as u64)
        + enc_workflows(m.workflows) + spec_le64(m.analyzers.len() as u64) + enc_strs(m.analyzers)
}

// ---- the decoding ----

/// Decode one wire document at a position.
pub open spec fn dec_file(b: Seq<u8>, pos: int) -> Option<(FileModel, int)> {
    match dec_str(b, pos) {
        None => None,
        Some((content, p1)) => match dec_str(b, p1) {
            None => None,
            Some((name, p2)) => Some(((FileModel { content, name }), p2)),
        },
    }
}

/// Decode a fixed number of document entries at a position.
pub open spec fn dec_files(b: Seq<u8>, pos: int, n: nat) -> Option<
    (Seq<(Seq<char>, FileModel)>, int),
>
    decreases n,
{
    if n == 0 {
        Some((Seq::empty(), pos))
    } else {
        match dec_str(b, pos) {
            None => None,
            Some((key, p1)) => match dec_file(b, p1) {
                None => None,
                Some((f, p2)) => match dec_files(b, p2, (n - 1) as nat) {
                    None => None,
                    Some((rest, p3)) => Some((seq![(key, f)] + rest, p3)),
                },
            },
        }
    }
}

/// Decode one wire step at a position.
pub open spec fn dec_item(b: Seq<u8>, pos: int) -> Option<(ItemModel, int)> {
    match dec_u32(b, pos) {
        None => None,
        Some((id, p1)) => match dec_str(b, p1) {
            None => None,
            Some((regex, p2)) => match dec_str(b, p2) {
                None => None,
                Some((context, p3)) => Some(((ItemModel { id, regex, context }), p3)),
            },
        },
    }
}

/// Decode a fixed number of steps at a position.
pub open spec fn dec_items(b: Seq<u8>, pos: int, n: nat) -> Option<(Seq<ItemModel>, int)>
    decreases n,
{
    if n == 0 {
        Some((Seq::empty(), pos))
    } else {
        match dec_item(b, pos) {
            None => None,
            Some((it, p1)) => match dec_items(b, p1, (n - 1) as nat) {
                None => None,
                Some((rest, p2)) => Some((seq![it] + rest, p2)),
            },
        }
    }
}

/// Decode one wire workflow at a position.
pub open spec fn dec_workflow(b: Seq<u8>, pos: int) -> Option<(WorkflowModel, int)> {
    match dec_str(b, pos) {
        None => None,
        Some((name, p1)) => match dec_u64(b, p1) {
            None => None,
            Some((n, p2)) => match dec_items(b, p2, n as nat) {
                None => None,
                Some((steps, p3)) => Some(((WorkflowModel { name, steps }), p3)),
            },
        },
    }
}

/// Decode a fixed number of workflow entries at a position.
pub open spec fn dec_workflows(b: Seq<u8>, pos: int, n: nat) -> Option<
    (Seq<(Seq<char>, WorkflowModel)>, int),
>
    decreases n,
{
    if n == 0 {
        Some((Seq::empty(), pos))
    } else {
        match dec_str(b, pos) {
            None => None,
            Some((key, p1)) => match dec_workflow(b, p1) {
                None => None,
                Some((w, p2)) => match dec_workflows(b, p2, (n - 1) as nat) {
                    None => None,
                    Some((rest, p3)) => Some((seq![(key, w)] + rest, p3)),
                },
            },
        }
    }
}

/// Decode a fixed number of strings at a position.
pub open spec fn dec_strs(b: Seq<u8>, pos: int, n: nat) -> Option<(Seq<Seq<char>>, int)>
    decreases n,
{
    if n == 0 {
        Some((Seq::empty(), pos))
    } else {
        match dec_str(b, pos) {
            None => None,
            Some((s, p1)) => match dec_strs(b, p1, (n - 1) as nat) {
                None => None,
                Some((rest, p2)) => Some((seq![s] + rest, p2)),
            },
        }
    }
}

/// Decode the whole wire structure. Trailing bytes, a bad length, or a bad
/// code point reject the whole buffer.
pub open spec fn dec_state(b: Seq<u8>) -> Option<StateModel> {
    match dec_u64(b, 0) {
        None => None,
        Some((nf, p1)) => match dec_files(b, p1, nf as nat) {
            None => None,
            Some((files, p2)) => match dec_u64(b, p2) {
                None => None,
                Some((nw, p3)) => match dec_workflows(b, p3, nw as nat) {
                    None => None,
                    Some((workflows, p4)) => match dec_u64(b, p4) {
                        None => None,
                        Some((na, p5)) => match dec_strs(b, p5, na as nat) {
                            None => None,
                            Some((analyzers, p6)) => if p6 == b.len() {
                                Some((StateModel { files, workflows, analyzers }))
                            } else {
                                None
                            },
                        },
                    },
                },
            },
        },
    }
}

// ---- the round trip: decoding an encoding yields the model back ----

proof fn lemma_dec_files_roundtrip(b: Seq<u8>, pos: int, v: Seq<(Seq<char>, FileModel)>)
    requires
        0 <= pos,
        files_fit(v),
        pos + enc_files(v).len() <= b.len(),
        b.subrange(pos, pos + enc_files(v).len()) == enc_files(v),
    ensures
        dec_files(b, pos, v.len()) == Some((v, pos + enc_files(v).len())),
    decreases v.len(),
{
    if v.len() > 0 {
        let e = v.first();
        let ekey = enc_str(e.0);
        let econtent = enc_str(e.1.content);
        let ename = enc_str(e.1.name);
        let tail = enc_files(v.drop_first());
        assert(enc_files(v) =~= ekey + (econtent + (ename + tail)));
        lemma_split_window(b, pos, ekey, econtent + (ename + tail));
        lemma_dec_str_roundtrip(b, pos, e.0);
        let p1 = pos + ekey.len();
        lemma_split_window(b, p1, econtent, ename + tail);
        lemma_dec_str_roundtrip(b, p1, e.1.content);
        let p2 = p1 + econtent.len();
        lemma_split_window(b, p2, ename, tail);
        lemma_dec_str_roundtrip(b, p2, e.1.name);
        let p3 = p2 + ename.len();
        assert(files_fit(v.drop_first())) by {
            assert(forall|i: int|
                0 <= i < v.drop_first().len() ==> #[trigger] v.drop_first()[i] == v[i + 1]);
        }
        lemma_dec_files_roundtrip(b, p3, v.drop_first());
        assert(dec_file(b, p1) == Some(((FileModel { content: e.1.content, name: e.1.name }), p3)));
        assert((FileModel { content: e.1.content, name: e.1.name }) =~= e.1);
        assert(seq![(e.0, e.1)] + v.drop_first() =~= v) by {
            assert((e.0, e.1) =~= e);
        }
    }
}

proof fn lemma_dec_items_roundtrip(b: Seq<u8>, pos: int, v: Seq<ItemModel>)
    requires
        0 <= pos,
        items_fit(v),
        pos + enc_items(v).len() <= b.len(),
        b.subrange(pos, pos + enc_items(v).len()) == enc_items(v),
    ensures
        dec_items(b, pos, v.len()) == Some((v, pos + enc_items(v).len())),
    decreases v.len(),
{
    if v.len() > 0 {
        let it = v.first();
        let eid = spec_le32(it.id);
        let eregex = enc_str(it.regex);
        let econtext = enc_str(it.context);
        let tail = enc_items(v.drop_first());
        assert(enc_items(v) =~= eid + (eregex + (econtext + tail)));
        lemma_split_window(b, pos, eid, eregex + (econtext + tail));
        crate::codec::lemma_le32_roundtrip(b, pos, it.id);
        let p1 = pos + 4;
        lemma_split_window(b, p1, eregex, econtext + tail);
        lemma_dec_str_roundtrip(b, p1, it.regex);
        let p2 = p1 + eregex.len();
        lemma_split_window(b, p2, econtext, tail);
        lemma_dec_str_roundtrip(b, p2, it.context);
        let p3 = p2 + econtext.len();
        assert(items_fit(v.drop_first())) by {
            assert(forall|i: int|
                0 <= i < v.drop_first().len() ==> #[trigger] v.drop_first()[i] == v[i + 1]);
        }
        lemma_dec_items_roundtrip(b, p3, v.drop_first());
        assert(dec_item(b, pos) == Some(
            ((ItemModel { id: it.id, regex: it.regex, context: it.context }), p3),
        ));
        assert((ItemModel { id: it.id, regex: it.regex, context: it.context }) =~= it);
        assert(seq![it] + v.drop_first() =~= v);
    }
}

proof fn lemma_dec_workflows_roundtrip(b: Seq<u8>, pos: int, v: Seq<(Seq<char>, WorkflowModel)>)
    requires
        0 <= pos,
        workflows_fit(v),
        pos + enc_workflows(v).len() <= b.len(),
        b.subrange(pos, pos + enc_workflows(v).len()) == enc_workflows(v),
    ensures
        dec_workflows(b, pos, v.len()) == Some((v, pos + enc_workflows(v).len())),
    decreases v.len(),
{
    if v.len() > 0 {
        let e = v.first();
        let ekey = enc_str(e.0);
        let ename = enc_str(e.1.name);
        let ecount = spec_le64(e.1.steps.len() as u64);
        let esteps = enc_items(e.1.steps);
        let tail = enc_workflows(v.drop_first());
        assert(enc_workflows(v) =~= ekey + (ename + (ecount + (esteps + tail))));
        lemma_split_window(b, pos, ekey, ename + (ecount + (esteps + tail)));
        lemma_dec_str_roundtrip(b, pos, e.0);
        let p1 = pos + ekey.len();
        lemma_split_window(b, p1, ename, ecount + (esteps + tail));
        lemma_dec_str_roundtrip(b, p1, e.1.name);
        let p2 = p1 + ename.len();
        lemma_split_window(b, p2, ecount, esteps + tail);
        crate::codec::lemma_le64_roundtrip(b, p2, e.1.steps.len() as u64);
        let p3 = p2 + 8;
        lemma_split_window(b, p3, esteps, tail);
        lemma_dec_items_roundtrip(b, p3, e.1.steps);
        let p4 = p3 + esteps.len();
        assert(workflows_fit(v.drop_first())) by {
            assert(forall|i: int|
                0 <= i < v.drop_first().len() ==> #[trigger] v.drop_first()[i] == v[i + 1]);
        }
        lemma_dec_workflows_roundtrip(b, p4, v.drop_first());
        assert(dec_workflow(b, p1) == Some(
            ((WorkflowModel { name: e.1.name, steps: e.1.steps }), p4),
        ));
        assert((WorkflowModel { name: e.1.name, steps: e.1.steps }) =~= e.1);
        assert(seq![(e.0, e.1)] + v.drop_first() =~= v) by {
            assert((e.0, e.1) =~= e);
        }
    }
}

proof fn lemma_dec_strs_roundtrip(b: Seq<u8>, pos: int, v: Seq<Seq<char>>)
    requires
        0 <= pos,
        strs_fit(v),
        pos + enc_strs(v).len() <= b.len(),
        b.subrange(pos, pos + enc_strs(v).len()) == enc_strs(v),
    ensures
        dec_strs(b, pos, v.len()) == Some((v, pos + enc_strs(v).len())),
    decreases v.len(),
{
    if v.len() > 0 {
        let s = v.first();
        let es = enc_str(s);
        let tail = enc_strs(v.drop_first());
        assert(enc_strs(v) =~= es + tail);
        lemma_split_window(b, pos, es, tail);
        lemma_dec_str_roundtrip(b, pos, s);
        let p1 = pos + es.len();
        assert(strs_fit(v.drop_first())) by {
            assert(forall|i: int|
                0 <= i < v.drop_first().len() ==> #[trigger] v.drop_first()[i] == v[i + 1]);
        }
        lemma_dec_strs_roundtrip(b, p1, v.drop_first());
        assert(seq![s] + v.drop_first() =~= v);
    }
}

/// Stage helper: peel one counted document list off the front of a window.
proof fn lemma_stage_files(b: Seq<u8>, pos: int, v: Seq<(Seq<char>, FileModel)>, rest: Seq<u8>)
    requires
        0 <= pos,
        files_fit(v),
        pos + 8 + enc_files(v).len() + rest.len() <= b.len(),
        b.subrange(pos, pos + 8 + enc_files(v).len() + rest.len()) == spec_le64(v.len() as u64)
            + enc_files(v) + rest,
    ensures
        dec_u64(b, pos) == Some((v.len() as u64, pos + 8)),
        dec_files(b, pos + 8, v.len()) == Some((v, pos + 8 + enc_files(v).len())),
        b.subrange(pos + 8 + enc_files(v).len(), pos + 8 + enc_files(v).len() + rest.len())
            == rest,
{
    let cf = spec_le64(v.len() as u64);
    let ef = enc_files(v);
    assert(cf + ef + rest =~= cf + (ef + rest));
    lemma_split_window(b, pos, cf, ef + rest);
    crate::codec::lemma_le64_roundtrip(b, pos, v.len() as u64);
    lemma_split_window(b, pos + 8, ef, rest);
    lemma_dec_files_roundtrip(b, pos + 8, v);
}

/// Stage helper: peel one counted workflow list off the front of a window.
proof fn lemma_stage_workflows(
    b: Seq<u8>,
    pos: int,
    v: Seq<(Seq<char>, WorkflowModel)>,
    rest: Seq<u8>,
)
    requires
        0 <= pos,
        workflows_fit(v),
        pos + 8 + enc_workflows(v).len() + rest.len() <= b.len(),
        b.subrange(pos, pos + 8 + enc_workflows(v).len() + rest.len()) == spec_le64(
            v.len() as u64,
        ) + enc_workflows(v) + rest,
    ensures
        dec_u64(b, pos) == Some((v.len() as u64, pos + 8)),
        dec_workflows(b, pos + 8, v.len()) == Some((v, pos + 8 + enc_workflows(v).len())),
        b.subrange(
            pos + 8 + enc_workflows(v).len(),
            pos + 8 + enc_workflows(v).len() + rest.len(),
        ) == rest,
{
    let cw = spec_le64(v.len() as u64);
    let ew = enc_workflows(v);
    assert(cw + ew + rest =~= cw + (ew + rest));
    lemma_split_window(b, pos, cw, ew + rest);
    crate::codec::lemma_le64_roundtrip(b, pos, v.len() as u64);
    lemma_split_window(b, pos + 8, ew, rest);
    lemma_dec_workflows_roundtrip(b, pos + 8, v);
}

/// Stage helper: peel one counted string list off the front of a window.
proof fn lemma_stage_strs(b: Seq<u8>, pos: int, v: Seq<Seq<char>>, rest: Seq<u8>)
    requires
        0 <= pos,
        strs_fit(v),
        pos + 8 + enc_strs(v).len() + rest.len() <= b.len(),
        b.subrange(pos, pos + 8 + enc_strs(v).len() + rest.len()) == spec_le64(v.len() as u64)
            + enc_strs(v) + rest,
    ensures
        dec_u64(b, pos) == Some((v.len() as u64, pos + 8)),
        dec_strs(b, pos + 8, v.len()) == Some((v, pos + 8 + enc_strs(v).len())),
        b.subrange(pos + 8 + enc_strs(v).len(), pos + 8 + enc_strs(v).len() + rest.len()) == rest,
{
    let ca = spec_le64(v.len() as u64);
    let ea = enc_strs(v);
    assert(ca + ea + rest =~= ca + (ea + rest));
    lemma_split_window(b, pos, ca, ea + rest);
    crate::codec::lemma_le64_roundtrip(b, pos, v.len() as u64);
    lemma_split_window(b, pos + 8, ea, rest);
    lemma_dec_strs_roundtrip(b, pos + 8, v);
}

/// Law: the byte codec round-trips — decoding the encoding of any wire model
/// that fits its length prefixes yields exactly that model.
#[verifier::rlimit(100)]
#[verifier::spinoff_prover]
pub proof fn lemma_dec_state_roundtrip(m: StateModel)
    requires
        model_fits(m),
    ensures
        dec_state(enc_state(m)) == Some(m),
{
    let b = enc_state(m);
    let cf = spec_le64(m.files.len() as u64);
    let ef = enc_files(m.files);
    let cw = spec_le64(m.workflows.len() as u64);
    let ew = enc_workflows(m.workflows);
    let ca = spec_le64(m.analyzers.len() as u64);
    let ea = enc_strs(m.analyzers);
    let rest1 = cw + ew + (ca + ea + Seq::<u8>::empty());
    assert(b.subrange(0, b.len() as int) =~= b);
    assert(b.subrange(0, 8 + ef.len() + rest1.len() as int) =~= cf + ef + rest1);
    lemma_stage_files(b, 0, m.files, rest1);
    let p2: int = 8 + ef.len() as int;
    let rest2 = ca + ea + Seq::<u8>::empty();
    assert(b.subrange(p2, p2 + 8 + ew.len() + rest2.len() as int) =~= cw + ew + rest2);
    lemma_stage_workflows(b, p2, m.workflows, rest2);
    let p4: int = p2 + 8 + ew.len() as int;
    assert(b.subrange(p4, p4 + 8 + ea.len() as int) =~= ca + ea + Seq::<u8>::empty());
    lemma_stage_strs(b, p4, m.analyzers, Seq::<u8>::empty());
    let p6: int = p4 + 8 + ea.len() as int;
    assert(p6 == b.len());
    assert((StateModel { files: m.files, workflows: m.workflows, analyzers: m.analyzers }) =~= m);
}

// ---- the executable encoder ----

fn put_file_entry(out: &mut Vec<u8>, key: &String, f: &SerializableFile)
    ensures
        final(out)@ == old(out)@ + enc_str(key@) + enc_file(f.model()),
{
    put_str(out, key.as_str());
    put_str(out, f.content.as_str());
    put_str(out, f.name.as_str());
    proof {
        assert(out@ =~= old(out)@ + enc_str(key@) + enc_file(f.model()));
    }
}

fn put_workflow_entry(out: &mut Vec<u8>, key: &String, w: &SerializableWorkflow)
    ensures
        final(out)@ == old(out)@ + enc_str(key@) + enc_workflow(w.model()),
{
    put_str(out, key.as_str());
    put_str(out, w.name.as_str());
    put_u64(out, w.steps.len() as u64);
    let ghost sm = w.steps@.map_values(|it: SerializableWorkflowItem| it.model());
    let ghost base = out@;
    let mut i: usize = 0;
    proof {
        assert(sm.skip(0) =~= sm);
    }
    while i < w.steps.len()
        invariant
            0 <= i <= w.steps@.len(),
            sm == w.steps@.map_values(|it: SerializableWorkflowItem| it.model()),
            base == old(out)@ + enc_str(key@) + enc_str(w.name@) + spec_le64(
                w.steps@.len() as u64,
            ),
            out@ + enc_items(sm.skip(i as int)) == base + enc_items(sm),
        decreases w.steps@.len() - i,
    {
        let step = &w.steps[i];
        let ghost prev = out@;
        put_u32(out, step.id);
        put_str(out, step.regex.as_str());
        put_str(out, step.context.as_str());
        proof {
            let rest = sm.skip(i as int);
            assert(rest.first() == sm[i as int]);
            assert(rest.drop_first() =~= sm.skip(i as int + 1));
            assert(enc_items(rest) == enc_item(rest.first()) + enc_items(rest.drop_first()));
            assert(out@ =~= prev + enc_item(sm[i as int]));
            assert(out@ + enc_items(sm.skip(i as int + 1)) =~= prev + enc_items(sm.skip(i as int)));
        }
        i = i + 1;
    }
    proof {
        assert(sm.skip(w.steps@.len() as int) =~= Seq::<ItemModel>::empty());
        assert(enc_items(Seq::<ItemModel>::empty()) =~= Seq::<u8>::empty());
        assert(out@ =~= out@ + Seq::<u8>::empty());
        assert(out@ =~= old(out)@ + enc_str(key@) + enc_workflow(w.model()));
    }
}

/// Encode the whole wire structure into its snapshot bytes.
pub fn encode_state(s: &SerializableState) -> (r: Vec<u8>)
    ensures
        r@ == enc_state(s.model()),
{
    let ghost m = s.model();
    let mut out: Vec<u8> = Vec::new();
    put_u64(&mut out, s.file_list.len() as u64);
    let ghost base1 = out@;
    let mut i: usize = 0;
    proof {
        assert(m.files.skip(0) =~= m.files);
        assert(base1 =~= spec_le64(m.files.len() as u64));
    }
    while i < s.file_list.len()
        invariant
            0 <= i <= s.file_list@.len(),
            m == s.model(),
            base1 == spec_le64(m.files.len() as u64),
            out@ + enc_files(m.files.skip(i as int)) == base1 + enc_files(m.files),
        decreases s.file_list@.len() - i,
    {
        let entry = &s.file_list[i];
        let ghost prev = out@;
        put_file_entry(&mut out, &entry.0, &entry.1);
        proof {
            let rest = m.files.skip(i as int);
            assert(rest.first() == m.files[i as int]);
            assert(m.files[i as int] == (s.file_list@[i as int].0@, s.file_list@[i as int].1.model()));
            assert(rest.drop_first() =~= m.files.skip(i as int + 1));
            assert(enc_files(rest) == enc_str(rest.first().0) + enc_file(rest.first().1)
                + enc_files(rest.drop_first()));
            assert(out@ + enc_files(m.files.skip(i as int + 1)) =~= prev + enc_files(rest));
        }
        i = i + 1;
    }
    proof {
        assert(m.files.skip(s.file_list@.len() as int) =~= Seq::<(Seq<char>, FileModel)>::empty());
        assert(out@ =~= out@ + enc_files(Seq::<(Seq<char>, FileModel)>::empty()));
        assert(out@ =~= spec_le64(m.files.len() as u64) + enc_files(m.files));
    }
    let ghost mid1 = out@;
    put_u64(&mut out, s.workflow_list.len() as u64);
    let ghost base2 = out@;
    let mut j: usize = 0;
    proof {
        assert(m.workflows.skip(0) =~= m.workflows);
    }
    while j < s.workflow_list.len()
        invariant
            0 <= j <= s.workflow_list@.len(),
            m == s.model(),
            base2 == mid1 + spec_le64(m.workflows.len() as u64),
            mid1 == spec_le64(m.files.len() as u64) + enc_files(m.files),
            out@ + enc_workflows(m.workflows.skip(j as int)) == base2 + enc_workflows(m.workflows),
        decreases s.workflow_list@.len() - j,
    {
        let entry = &s.workflow_list[j];
        let ghost prev = out@;
        put_workflow_entry(&mut out, &entry.0, &entry.1);
        proof {
            let rest = m.workflows.skip(j as int);
            assert(rest.first() == m.workflows[j as int]);
            assert(m.workflows[j as int] == (s.workflow_list@[j as int].0@, s.workflow_list@[j as int].1.model()));
            assert(rest.drop_first() =~= m.workflows.skip(j as int + 1));
            assert(enc_workflows(rest) == enc_str(rest.first().0) + enc_workflow(rest.first().1)
                + enc_workflows(rest.drop_first()));
            assert(out@ + enc_workflows(m.workflows.skip(j as int + 1)) =~= prev + enc_workflows(rest));
        }
        j = j + 1;
    }
    proof {
        assert(m.workflows.skip(s.workflow_list@.len() as int) =~= Seq::<(Seq<char>, WorkflowModel)>::empty());
        assert(out@ =~= out@ + enc_workflows(Seq::<(Seq<char>, WorkflowModel)>::empty()));
        assert(out@ =~= base2 + enc_workflows(m.workflows));
    }
    let ghost mid2 = out@;
    put_u64(&mut out, s.analyzers.len() as u64);
    let ghost base3 = out@;
    let mut k: usize = 0;
    proof {
        assert(m.analyzers.skip(0) =~= m.analyzers);
    }
    while k < s.analyzers.len()
        invariant
            0 <= k <= s.analyzers@.len(),
            m == s.model(),
            base3 == mid2 + spec_le64(m.analyzers.len() as u64),
            mid2 == spec_le64(m.files.len() as u64) + enc_files(m.files) + spec_le64(
                m.workflows.len() as u64,
            ) + enc_workflows(m.workflows),
            out@ + enc_strs(m.analyzers.skip(k as int)) == base3 + enc_strs(m.analyzers),
        decreases s.analyzers@.len() - k,
    {
        let ghost prev = out@;
        put_str(&mut out, s.analyzers[k].as_str());
        proof {
            let rest = m.analyzers.skip(k as int);
            assert(rest.first() == m.analyzers[k as int]);
            assert(m.analyzers[k as int] == s.analyzers@[k as int]@);
            assert(rest.drop_first() =~= m.analyzers.skip(k as int + 1));
            assert(enc_strs(rest) == enc_str(rest.first()) + enc_strs(rest.drop_first()));
            assert(out@ + enc_strs(m.analyzers.skip(k as int + 1)) =~= prev + enc_strs(rest));
        }
        k = k + 1;
    }
    proof {
        assert(m.analyzers.skip(s.analyzers@.len() as int) =~= Seq::<Seq<char>>::empty());
        assert(out@ =~= out@ + enc_strs(Seq::<Seq<char>>::empty()));
        assert(out@ =~= enc_state(m));
    }
    out
}


// ---- the executable decoder ----

fn get_file_w(b: &Vec<u8>, pos: usize) -> (r: Option<(SerializableFile, usize)>)
    requires
        pos <= b@.len(),
    ensures
        r is Some ==> dec_file(b@, pos as int) == Some((((r->0).0).model(), (r->0).1 as int)) && (
        r->0).1 <= b@.len(),
        r is None ==> dec_file(b@, pos as int) is None,
{
    match crate::codec::get_str(b, pos) {
        None => None,
        Some((content, p1)) => match crate::codec::get_str(b, p1) {
            None => None,
            Some((name, p2)) => Some((SerializableFile { content, name }, p2)),
        },
    }
}

fn get_item_w(b: &Vec<u8>, pos: usize) -> (r: Option<(SerializableWorkflowItem, usize)>)
    requires
        pos <= b@.len(),
    ensures
        r is Some ==> dec_item(b@, pos as int) == Some((((r->0).0).model(), (r->0).1 as int)) && (
        r->0).1 <= b@.len(),
        r is None ==> dec_item(b@, pos as int) is None,
{
    if b.len() - pos < 4 {
        return None;
    }
    let id = crate::codec::get_u32(b, pos);
    match crate::codec::get_str(b, pos + 4) {
        None => None,
        Some((regex, p1)) => match crate::codec::get_str(b, p1) {
            None => None,
            Some((context, p2)) => Some((SerializableWorkflowItem { id, regex, context }, p2)),
        },
    }
}

fn get_workflow_w(b: &Vec<u8>, pos: usize) -> (r: Option<(SerializableWorkflow, usize)>)
    requires
        pos <= b@.len(),
    ensures
        r is Some ==> dec_workflow(b@, pos as int) == Some(
            (((r->0).0).model(), (r->0).1 as int),
        ) && (r->0).1 <= b@.len(),
        r is None ==> dec_workflow(b@, pos as int) is None,
{
    let name_read = crate::codec::get_str(b, pos);
    match name_read {
        None => None,
        Some((name, p1)) => {
            if b.len() - p1 < 8 {
                return None;
            }
            let n = crate::codec::get_u64(b, p1);
            let p2 = p1 + 8;
            let mut cur: usize = p2;
            let mut j: u64 = 0;
            let mut acc: Vec<SerializableWorkflowItem> = Vec::new();
            while j < n
                invariant
                    cur <= b@.len(),
                    0 <= j <= n,
                    dec_str(b@, pos as int) == Some((name@, p1 as int)),
                    dec_u64(b@, p1 as int) == Some((n, p2 as int)),
                    acc@.len() == j,
                    ({
                        match dec_items(b@, cur as int, (n - j) as nat) {
                            Some((rest, p)) => dec_items(b@, p2 as int, n as nat) == Some(
                                (items_model(acc@) + rest, p),
                            ),
                            None => dec_items(b@, p2 as int, n as nat) is None,
                        }
                    }),
                decreases n - j,
            {
                let item_read = get_item_w(b, cur);
                match item_read {
                    None => {
                        proof {
                            assert(dec_items(b@, cur as int, (n - j) as nat) is None);
                        }
                        return None;
                    },
                    Some((item, p_next)) => {
                        let ghost prev = items_model(acc@);
                        let ghost im = item.model();
                        acc.push(item);
                        proof {
                            assert(items_model(acc@) =~= prev.push(im));
                            let inner = dec_items(b@, p_next as int, (n - j - 1) as nat);
                            match inner {
                                Some((rest2, pe)) => {
                                    assert(dec_items(b@, cur as int, (n - j) as nat) == Some(
                                        (seq![im] + rest2, pe),
                                    ));
                                    assert(prev + (seq![im] + rest2) =~= items_model(acc@)
                                        + rest2);
                                },
                                None => {
                                    assert(dec_items(b@, cur as int, (n - j) as nat) is None);
                                },
                            }
                        }
                        cur = p_next;
                        j = j + 1;
                    },
                }
            }
            proof {
                assert(dec_items(b@, cur as int, 0) == Some((Seq::<ItemModel>::empty(), cur as int)));
                assert(items_model(acc@) + Seq::<ItemModel>::empty() =~= items_model(acc@));
            }
            let w = SerializableWorkflow { name, steps: acc };
            proof {
                assert(w.model() =~= (WorkflowModel { name: w.name@, steps: items_model(w.steps@) }));
            }
            Some((w, cur))
        },
    }
}

/// Decode snapshot bytes back into the wire structure, or None where the
/// buffer is not a whole, well-formed snapshot.
#[verifier::rlimit(100)]
#[verifier::spinoff_prover]
pub fn decode_state(b: &Vec<u8>) -> (r: Option<SerializableState>)
    ensures
        r is Some <==> dec_state(b@) is Some,
        r is Some ==> (r->0).model() == dec_state(b@)->0,
{
    if b.len() < 8 {
        return None;
    }
    let nf = crate::codec::get_u64(b, 0);
    let mut pos: usize = 8;
    let mut jf: u64 = 0;
    let mut files: Vec<(String, SerializableFile)> = Vec::new();
    while jf < nf
        invariant
            pos <= b@.len(),
            0 <= jf <= nf,
            dec_u64(b@, 0) == Some((nf, 8int)),
            files@.len() == jf,
            ({
                match dec_files(b@, pos as int, (nf - jf) as nat) {
                    Some((rest, p)) => dec_files(b@, 8int, nf as nat) == Some(
                        (file_entries_model(files@) + rest, p),
                    ),
                    None => dec_files(b@, 8int, nf as nat) is None,
                }
            }),
        decreases nf - jf,
    {
        let key_read = crate::codec::get_str(b, pos);
        match key_read {
            None => {
                proof {
                    assert(dec_files(b@, pos as int, (nf - jf) as nat) is None);
                }
                return None;
            },
            Some((key, p1)) => {
                let file_read = get_file_w(b, p1);
                match file_read {
                    None => {
                        proof {
                            assert(dec_files(b@, pos as int, (nf - jf) as nat) is None);
                        }
                        return None;
                    },
                    Some((f, p2)) => {
                        let ghost prev = file_entries_model(files@);
                        let ghost em = (key@, f.model());
                        files.push((key, f));
                        proof {
                            assert(file_entries_model(files@) =~= prev.push(em));
                            let inner = dec_files(b@, p2 as int, (nf - jf - 1) as nat);
                            match inner {
                                Some((rest2, pe)) => {
                                    assert(dec_files(b@, pos as int, (nf - jf) as nat) == Some(
                                        (seq![em] + rest2, pe),
                                    ));
                                    assert(prev + (seq![em] + rest2) =~= file_entries_model(
                                        files@,
                                    ) + rest2);
                                },
                                None => {
                                    assert(dec_files(b@, pos as int, (nf - jf) as nat) is None);
                                },
                            }
                        }
                        pos = p2;
                        jf = jf + 1;
                    },
                }
            },
        }
    }
    proof {
        assert(dec_files(b@, pos as int, 0) == Some(
            (Seq::<(Seq<char>, FileModel)>::empty(), pos as int),
        ));
        assert(file_entries_model(files@) + Seq::<(Seq<char>, FileModel)>::empty()
            =~= file_entries_model(files@));
    }
    if b.len() - pos < 8 {
        return None;
    }
    let nw = crate::codec::get_u64(b, pos);
    let ghost pw0 = pos + 8;
    pos = pos + 8;
    let mut jw: u64 = 0;
    let mut workflows: Vec<(String, SerializableWorkflow)> = Vec::new();
    while jw < nw
        invariant
            pos <= b@.len(),
            0 <= jw <= nw,
            dec_u64(b@, 0) == Some((nf, 8int)),
            dec_files(b@, 8int, nf as nat) == Some((file_entries_model(files@), pw0 - 8)),
            dec_u64(b@, pw0 - 8, ) == Some((nw, pw0 as int)),
            workflows@.len() == jw,
            ({
                match dec_workflows(b@, pos as int, (nw - jw) as nat) {
                    Some((rest, p)) => dec_workflows(b@, pw0 as int, nw as nat) == Some(
                        (workflow_entries_model(workflows@) + rest, p),
                    ),
                    None => dec_workflows(b@, pw0 as int, nw as nat) is None,
                }
            }),
        decreases nw - jw,
    {
        let key_read = crate::codec::get_str(b, pos);
        match key_read {
            None => {
                proof {
                    assert(dec_workflows(b@, pos as int, (nw - jw) as nat) is None);
                }
                return None;
            },
            Some((key, p1)) => {
                let wf_read = get_workflow_w(b, p1);
                match wf_read {
                    None => {
                        proof {
                            assert(dec_workflows(b@, pos as int, (nw - jw) as nat) is None);
                        }
                        return None;
                    },
                    Some((w, p2)) => {
                        let ghost prev = workflow_entries_model(workflows@);
                        let ghost em = (key@, w.model());
                        workflows.push((key, w));
                        proof {
                            assert(workflow_entries_model(workflows@) =~= prev.push(em));
                            let inner = dec_workflows(b@, p2 as int, (nw - jw - 1) as nat);
                            match inner {
                                Some((rest2, pe)) => {
                                    assert(dec_workflows(b@, pos as int, (nw - jw) as nat) == Some(
                                        (seq![em] + rest2, pe),
                                    ));
                                    assert(prev + (seq![em] + rest2) =~= workflow_entries_model(
                                        workflows@,
                                    ) + rest2);
                                },
                                None => {
                                    assert(dec_workflows(b@, pos as int, (nw - jw) as nat) is None);
                                },
                            }
                        }
                        pos = p2;
                        jw = jw + 1;
                    },
                }
            },
        }
    }
    proof {
        assert(dec_workflows(b@, pos as int, 0) == Some(
            (Seq::<(Seq<char>, WorkflowModel)>::empty(), pos as int),
        ));
        assert(workflow_entries_model(workflows@) + Seq::<(Seq<char>, WorkflowModel)>::empty()
            =~= workflow_entries_model(workflows@));
    }
    if b.len() - pos < 8 {
        return None;
    }
    let na = crate::codec::get_u64(b, pos);
    let ghost pa0 = pos + 8;
    pos = pos + 8;
    let mut ja: u64 = 0;
    let mut analyzers: Vec<String> = Vec::new();
    while ja < na
        invariant
            pos <= b@.len(),
            0 <= ja <= na,
            dec_u64(b@, 0) == Some((nf, 8int)),
            dec_files(b@, 8int, nf as nat) == Some((file_entries_model(files@), pw0 - 8)),
            dec_u64(b@, pw0 - 8, ) == Some((nw, pw0 as int)),
            dec_workflows(b@, pw0 as int, nw as nat) == Some(
                (workflow_entries_model(workflows@), pa0 - 8),
            ),
            dec_u64(b@, pa0 - 8, ) == Some((na, pa0 as int)),
            analyzers@.len() == ja,
            ({
                match dec_strs(b@, pos as int, (na - ja) as nat) {
                    Some((rest, p)) => dec_strs(b@, pa0 as int, na as nat) == Some(
                        (strs_model(analyzers@) + rest, p),
                    ),
                    None => dec_strs(b@, pa0 as int, na as nat) is None,
                }
            }),
        decreases na - ja,
    {
        let s_read = crate::codec::get_str(b, pos);
        match s_read {
            None => {
                proof {
                    assert(dec_strs(b@, pos as int, (na - ja) as nat) is None);
                }
                return None;
            },
            Some((p_str, p1)) => {
                let ghost prev = strs_model(analyzers@);
                let ghost em = p_str@;
                analyzers.push(p_str);
                proof {
                    assert(strs_model(analyzers@) =~= prev.push(em));
                    let inner = dec_strs(b@, p1 as int, (na - ja - 1) as nat);
                    match inner {
                        Some((rest2, pe)) => {
                            assert(dec_strs(b@, pos as int, (na - ja) as nat) == Some(
                                (seq![em] + rest2, pe),
                            ));
                            assert(prev + (seq![em] + rest2) =~= strs_model(analyzers@) + rest2);
                        },
                        None => {
                            assert(dec_strs(b@, pos as int, (na - ja) as nat) is None);
                        },
                    }
                }
                pos = p1;
                ja = ja + 1;
            },
        }
    }
    proof {
        assert(dec_strs(b@, pos as int, 0) == Some((Seq::<Seq<char>>::empty(), pos as int)));
        assert(strs_model(analyzers@) + Seq::<Seq<char>>::empty() =~= strs_model(analyzers@));
    }
    if pos != b.len() {
        return None;
    }
    let out = SerializableState { file_list: files, workflow_list: workflows, analyzers };
    proof {
        assert(dec_state(b@) == Some(out.model()));
    }
    Some(out)
}


// ---- between the store and the wire ----

/// The wire model of a stored workflow.
pub open spec fn workflow_model(w: Workflow) -> WorkflowModel {
    WorkflowModel {
        name: w.name@,
        steps: w.steps@.map_values(
            |it: WorkflowItem| (ItemModel { id: it.id, regex: it.regex@, context: it.context@ }),
        ),
    }
}

/// The model of a document record list: identifier and document.
pub open spec fn file_recs_model(v: Seq<FileRecord>) -> Seq<(u64, FileModel)> {
    v.map_values(
        |rec: FileRecord| (rec.id, (FileModel { content: rec.file.content@, name: rec.file.name@ })),
    )
}

/// The model of a workflow record list: identifier and workflow.
pub open spec fn workflow_recs_model(v: Seq<WorkflowRecord>) -> Seq<(u64, WorkflowModel)> {
    v.map_values(|rec: WorkflowRecord| (rec.id, workflow_model(rec.workflow)))
}

/// Document records keyed by their rendered identifiers, as the wire holds
/// them.
pub open spec fn files_wire(v: Seq<FileRecord>) -> Seq<(Seq<char>, FileModel)> {
    v.map_values(
        |rec: FileRecord| (
            spec_render_id(rec.id),
            (FileModel { content: rec.file.content@, name: rec.file.name@ }),
        ),
    )
}

/// Workflow records keyed by their rendered identifiers, as the wire holds
/// them.
pub open spec fn workflows_wire(v: Seq<WorkflowRecord>) -> Seq<(Seq<char>, WorkflowModel)> {
    v.map_values(|rec: WorkflowRecord| (spec_render_id(rec.id), workflow_model(rec.workflow)))
}

/// The wire model of a whole store: documents and workflows under their
/// rendered identifiers, and the pattern set.
pub open spec fn wire_of(s: WatsonState) -> StateModel {
    StateModel {
        files: files_wire(s.file_list@),
        workflows: workflows_wire(s.workflows@),
        analyzers: patterns_of(s.analyzers@),
    }
}

/// Copy a stored document into its wire form.
pub fn to_serializable_file(file: &File) -> (r: SerializableFile)
    ensures
        r.model() == (FileModel { content: file.content@, name: file.name@ }),
{
    SerializableFile { content: file.content.clone(), name: file.name.clone() }
}

/// Copy a stored workflow into its wire form.
pub fn to_serializable_workflow(workflow: &Workflow) -> (r: SerializableWorkflow)
    ensures
        r.model() == workflow_model(*workflow),
{
    let mut steps: Vec<SerializableWorkflowItem> = Vec::new();
    let mut i: usize = 0;
    while i < workflow.steps.len()
        invariant
            0 <= i <= workflow.steps@.len(),
            steps@.len() == i,
            forall|k: int|
                0 <= k < i ==> (#[trigger] steps@[k]).model() == workflow_model(
                    *workflow,
                ).steps[k],
        decreases workflow.steps@.len() - i,
    {
        let it = &workflow.steps[i];
        let wire_item = SerializableWorkflowItem {
            id: it.id,
            regex: it.regex.clone(),
            context: it.context.clone(),
        };
        steps.push(wire_item);
        i = i + 1;
    }
    let r = SerializableWorkflow { name: workflow.name.clone(), steps };
    proof {
        assert(r.model().steps =~= workflow_model(*workflow).steps);
        assert(r.model() =~= workflow_model(*workflow));
    }
    r
}

/// Copy the whole store into its wire form, rendering each identifier as a
/// string key.
pub fn to_serializable_state(state: &WatsonState) -> (r: SerializableState)
    ensures
        r.model() == wire_of(*state),
{
    let mut file_list: Vec<(String, SerializableFile)> = Vec::new();
    let mut i: usize = 0;
    while i < state.file_list.len()
        invariant
            0 <= i <= state.file_list@.len(),
            file_list@.len() == i,
            forall|k: int|
                0 <= k < i ==> (#[trigger] file_entries_model(file_list@)[k]) == wire_of(
                    *state,
                ).files[k],
        decreases state.file_list@.len() - i,
    {
        let rec = &state.file_list[i];
        let key = render_id(rec.id);
        let wire_file = to_serializable_file(&rec.file);
        let ghost prev = file_list@;
        let ghost em = (key@, wire_file.model());
        file_list.push((key, wire_file));
        proof {
            assert(file_entries_model(file_list@) =~= file_entries_model(prev).push(em));
            assert(em == wire_of(*state).files[i as int]);
        }
        i = i + 1;
    }
    let mut workflow_list: Vec<(String, SerializableWorkflow)> = Vec::new();
    let mut j: usize = 0;
    while j < state.workflows.len()
        invariant
            0 <= j <= state.workflows@.len(),
            workflow_list@.len() == j,
            forall|k: int|
                0 <= k < j ==> (#[trigger] workflow_entries_model(workflow_list@)[k]) == wire_of(
                    *state,
                ).workflows[k],
        decreases state.workflows@.len() - j,
    {
        let rec = &state.workflows[j];
        let key = render_id(rec.id);
        let wire_workflow = to_serializable_workflow(&rec.workflow);
        let ghost prev = workflow_list@;
        let ghost em = (key@, wire_workflow.model());
        workflow_list.push((key, wire_workflow));
        proof {
            assert(workflow_entries_model(workflow_list@) =~= workflow_entries_model(prev).push(em));
            assert(em == wire_of(*state).workflows[j as int]);
        }
        j = j + 1;
    }
    let mut analyzers: Vec<String> = Vec::new();
    let mut k: usize = 0;
    while k < state.analyzers.len()
        invariant
            0 <= k <= state.analyzers@.len(),
            analyzers@.len() == k,
            forall|t: int| 0 <= t < k ==> (#[trigger] analyzers@[t])@ == state.analyzers@[t]@,
        decreases state.analyzers@.len() - k,
    {
        let p = state.analyzers[k].clone();
        analyzers.push(p);
        k = k + 1;
    }
    let r = SerializableState { file_list, workflow_list, analyzers };
    proof {
        assert(r.model().files =~= wire_of(*state).files);
        assert(r.model().workflows =~= wire_of(*state).workflows);
        assert(r.model().analyzers =~= wire_of(*state).analyzers);
        assert(r.model() =~= wire_of(*state));
    }
    r
}

/// Serialize the whole store to its snapshot bytes.
pub fn serialize(state: &WatsonState) -> (r: Vec<u8>)
    ensures
        r@ == enc_state(wire_of(*state)),
{
    let wire = to_serializable_state(state);
    encode_state(&wire)
}

// ---- rehydration ----

/// The identifiers of rehydrated document entries.
pub open spec fn rf_ids(v: Seq<(u64, FileModel)>) -> Seq<u64> {
    v.map_values(|e: (u64, FileModel)| e.0)
}

/// The identifiers of rehydrated workflow entries.
pub open spec fn rw_ids(v: Seq<(u64, WorkflowModel)>) -> Seq<u64> {
    v.map_values(|e: (u64, WorkflowModel)| e.0)
}

/// Rehydrate a document entry list: parse each key back into an identifier,
/// silently dropping an entry whose key does not parse, whose identifier
/// cannot sit below any counter value, or whose identifier is already taken.
pub open spec fn rehydrate_files(entries: Seq<(Seq<char>, FileModel)>) -> Seq<(u64, FileModel)>
    decreases entries.len(),
{
    if entries.len() == 0 {
        Seq::empty()
    } else {
        let pre = rehydrate_files(entries.drop_last());
        let e = entries.last();
        match spec_parse_id(e.0) {
            None => pre,
            Some(id) => if id == u64::MAX || rf_ids(pre).contains(id) {
                pre
            } else {
                pre.push((id, e.1))
            },
        }
    }
}

/// Rehydrate a workflow entry list, with the same key policy as documents.
pub open spec fn rehydrate_workflows(entries: Seq<(Seq<char>, WorkflowModel)>) -> Seq<
    (u64, WorkflowModel),
>
    decreases entries.len(),
{
    if entries.len() == 0 {
        Seq::empty()
    } else {
        let pre = rehydrate_workflows(entries.drop_last());
        let e = entries.last();
        match spec_parse_id(e.0) {
            None => pre,
            Some(id) => if id == u64::MAX || rw_ids(pre).contains(id) {
                pre
            } else {
                pre.push((id, e.1))
            },
        }
    }
}

/// Rehydrate the pattern set: keep each pattern the analyzer accepts, once.
pub open spec fn rehydrate_patterns(ps: Seq<Seq<char>>) -> Seq<Seq<char>>
    decreases ps.len(),
{
    if ps.len() == 0 {
        Seq::empty()
    } else {
        let pre = rehydrate_patterns(ps.drop_last());
        let p = ps.last();
        if regex_valid(p) && !pre.contains(p) {
            pre.push(p)
        } else {
            pre
        }
    }
}


/// Copy a wire workflow back into its stored form.
fn from_serializable_workflow(w: &SerializableWorkflow) -> (r: Workflow)
    ensures
        workflow_model(r) == w.model(),
{
    let mut steps: Vec<WorkflowItem> = Vec::new();
    let mut i: usize = 0;
    while i < w.steps.len()
        invariant
            0 <= i <= w.steps@.len(),
            steps@.len() == i,
            forall|k: int|
                0 <= k < i ==> (ItemModel {
                    id: (#[trigger] steps@[k]).id,
                    regex: steps@[k].regex@,
                    context: steps@[k].context@,
                }) == w.steps@[k].model(),
        decreases w.steps@.len() - i,
    {
        let it = &w.steps[i];
        let item = WorkflowItem { id: it.id, regex: it.regex.clone(), context: it.context.clone() };
        steps.push(item);
        i = i + 1;
    }
    let r = Workflow { name: w.name.clone(), steps };
    proof {
        assert(workflow_model(r).steps =~= w.model().steps);
        assert(workflow_model(r) =~= w.model());
    }
    r
}

/// Rehydrate the wire structure into a live, well-formed store. Entries with
/// bad keys, duplicate identifiers, or patterns the analyzer rejects are
/// dropped silently; the identifier counter starts above every loaded
/// identifier.
pub fn to_watson_state(state: SerializableState) -> (r: WatsonState)
    ensures
        r.wf(),
        file_recs_model(r.file_list@) == rehydrate_files(file_entries_model(state.file_list@)),
        workflow_recs_model(r.workflows@) == rehydrate_workflows(
            workflow_entries_model(state.workflow_list@),
        ),
        r.patterns_view() == rehydrate_patterns(strs_model(state.analyzers@)),
{
    let ghost fe = file_entries_model(state.file_list@);
    let ghost we = workflow_entries_model(state.workflow_list@);
    let ghost sm = strs_model(state.analyzers@);
    let mut file_list: Vec<FileRecord> = Vec::new();
    let mut next_id: u64 = 0;
    let mut i: usize = 0;
    proof {
        assert(fe.take(0) =~= Seq::<(Seq<char>, FileModel)>::empty());
        assert(file_recs_model(file_list@) =~= Seq::<(u64, FileModel)>::empty());
    }
    while i < state.file_list.len()
        invariant
            0 <= i <= state.file_list@.len(),
            fe == file_entries_model(state.file_list@),
            file_recs_model(file_list@) == rehydrate_files(fe.take(i as int)),
            forall|k: int| 0 <= k < file_list@.len() ==> (#[trigger] file_list@[k]).id < next_id,
            forall|k1: int, k2: int|
                0 <= k1 < k2 < file_list@.len() ==> (#[trigger] file_list@[k1]).id != (
                #[trigger] file_list@[k2]).id,
        decreases state.file_list@.len() - i,
    {
        proof {
            assert(fe.take(i as int + 1).drop_last() =~= fe.take(i as int));
            assert(fe.take(i as int + 1).last() == fe[i as int]);
        }
        let entry = &state.file_list[i];
        let parsed = parse_id(entry.0.as_str());
        match parsed {
            None => {},
            Some(id) => {
                if id < u64::MAX {
                    let mut dup = false;
                    let mut k: usize = 0;
                    while k < file_list.len()
                        invariant
                            0 <= k <= file_list@.len(),
                            dup <==> exists|t: int|
                                0 <= t < k && (#[trigger] file_list@[t]).id == id,
                        decreases file_list@.len() - k,
                    {
                        if file_list[k].id == id {
                            dup = true;
                        }
                        k = k + 1;
                    }
                    proof {
                        let pre = file_recs_model(file_list@);
                        assert(forall|t: int|
                            0 <= t < pre.len() ==> #[trigger] rf_ids(pre)[t] == file_list@[t].id);
                        if dup {
                            let t = choose|t: int|
                                0 <= t < file_list@.len() && (#[trigger] file_list@[t]).id == id;
                            assert(rf_ids(pre)[t] == id);
                            assert(rf_ids(pre).contains(id));
                        } else {
                            assert(!rf_ids(pre).contains(id)) by {
                                assert forall|t: int|
                                    0 <= t < rf_ids(pre).len() implies rf_ids(pre)[t] != id by {
                                    assert(rf_ids(pre)[t] == file_list@[t].id);
                                }
                            }
                        }
                    }
                    if !dup {
                        let ghost prev = file_list@;
                        let file = File {
                            content: entry.1.content.clone(),
                            name: entry.1.name.clone(),
                        };
                        file_list.push(FileRecord { id, file });
                        if id >= next_id {
                            next_id = id + 1;
                        }
                        proof {
                            assert(file_recs_model(file_list@) =~= file_recs_model(prev).push(
                                (id, fe[i as int].1),
                            ));
                        }
                    }
                }
            },
        }
        i = i + 1;
    }
    proof {
        assert(fe.take(state.file_list@.len() as int) =~= fe);
    }
    let mut workflows: Vec<WorkflowRecord> = Vec::new();
    let mut j: usize = 0;
    proof {
        assert(we.take(0) =~= Seq::<(Seq<char>, WorkflowModel)>::empty());
        assert(workflow_recs_model(workflows@) =~= Seq::<(u64, WorkflowModel)>::empty());
    }
    while j < state.workflow_list.len()
        invariant
            0 <= j <= state.workflow_list@.len(),
            we == workflow_entries_model(state.workflow_list@),
            file_recs_model(file_list@) == rehydrate_files(fe.take(fe.len() as int)),
            fe == file_entries_model(state.file_list@),
            workflow_recs_model(workflows@) == rehydrate_workflows(we.take(j as int)),
            forall|k: int| 0 <= k < file_list@.len() ==> (#[trigger] file_list@[k]).id < next_id,
            forall|k: int| 0 <= k < workflows@.len() ==> (#[trigger] workflows@[k]).id < next_id,
            forall|k1: int, k2: int|
                0 <= k1 < k2 < file_list@.len() ==> (#[trigger] file_list@[k1]).id != (
                #[trigger] file_list@[k2]).id,
            forall|k1: int, k2: int|
                0 <= k1 < k2 < workflows@.len() ==> (#[trigger] workflows@[k1]).id != (
                #[trigger] workflows@[k2]).id,
        decreases state.workflow_list@.len() - j,
    {
        proof {
            assert(we.take(j as int + 1).drop_last() =~= we.take(j as int));
            assert(we.take(j as int + 1).last() == we[j as int]);
        }
        let entry = &state.workflow_list[j];
        let parsed = parse_id(entry.0.as_str());
        match parsed {
            None => {},
            Some(id) => {
                if id < u64::MAX {
                    let mut dup = false;
                    let mut k: usize = 0;
                    while k < workflows.len()
                        invariant
                            0 <= k <= workflows@.len(),
                            dup <==> exists|t: int|
                                0 <= t < k && (#[trigger] workflows@[t]).id == id,
                        decreases workflows@.len() - k,
                    {
                        if workflows[k].id == id {
                            dup = true;
                        }
                        k = k + 1;
                    }
                    proof {
                        let pre = workflow_recs_model(workflows@);
                        assert(forall|t: int|
                            0 <= t < pre.len() ==> #[trigger] rw_ids(pre)[t] == workflows@[t].id);
                        if dup {
                            let t = choose|t: int|
                                0 <= t < workflows@.len() && (#[trigger] workflows@[t]).id == id;
                            assert(rw_ids(pre)[t] == id);
                            assert(rw_ids(pre).contains(id));
                        } else {
                            assert(!rw_ids(pre).contains(id)) by {
                                assert forall|t: int|
                                    0 <= t < rw_ids(pre).len() implies rw_ids(pre)[t] != id by {
                                    assert(rw_ids(pre)[t] == workflows@[t].id);
                                }
                            }
                        }
                    }
                    if !dup {
                        let ghost prev = workflows@;
                        let workflow = from_serializable_workflow(&entry.1);
                        workflows.push(WorkflowRecord { id, workflow });
                        if id >= next_id {
                            next_id = id + 1;
                        }
                        proof {
                            assert(workflow_recs_model(workflows@) =~= workflow_recs_model(
                                prev,
                            ).push((id, we[j as int].1)));
                        }
                    }
                }
            },
        }
        j = j + 1;
    }
    proof {
        assert(we.take(state.workflow_list@.len() as int) =~= we);
    }
    let mut analyzers: Vec<String> = Vec::new();
    let mut a: usize = 0;
    proof {
        assert(sm.take(0) =~= Seq::<Seq<char>>::empty());
        assert(patterns_of(analyzers@) =~= Seq::<Seq<char>>::empty());
    }
    while a < state.analyzers.len()
        invariant
            0 <= a <= state.analyzers@.len(),
            sm == strs_model(state.analyzers@),
            patterns_of(analyzers@) == rehydrate_patterns(sm.take(a as int)),
            forall|k: int| 0 <= k < analyzers@.len() ==> regex_valid((#[trigger] analyzers@[k])@),
            forall|k1: int, k2: int|
                0 <= k1 < k2 < analyzers@.len() ==> (#[trigger] analyzers@[k1])@ != (
                #[trigger] analyzers@[k2])@,
        decreases state.analyzers@.len() - a,
    {
        proof {
            assert(sm.take(a as int + 1).drop_last() =~= sm.take(a as int));
            assert(sm.take(a as int + 1).last() == sm[a as int]);
        }
        let p = &state.analyzers[a];
        if pattern_compiles(p.as_str()) {
            let mut dup = false;
            let mut k: usize = 0;
            while k < analyzers.len()
                invariant
                    0 <= k <= analyzers@.len(),
                    dup <==> exists|t: int| 0 <= t < k && (#[trigger] analyzers@[t])@ == p@,
                decreases analyzers@.len() - k,
            {
                if analyzers[k] == *p {
                    dup = true;
                }
                k = k + 1;
            }
            proof {
                let pre = patterns_of(analyzers@);
                assert(forall|t: int|
                    0 <= t < pre.len() ==> #[trigger] pre[t] == analyzers@[t]@);
                if dup {
                    let t = choose|t: int|
                        0 <= t < analyzers@.len() && (#[trigger] analyzers@[t])@ == p@;
                    assert(pre[t] == p@);
                    assert(pre.contains(p@));
                } else {
                    assert(!pre.contains(p@)) by {
                        assert forall|t: int| 0 <= t < pre.len() implies pre[t] != p@ by {
                            assert(pre[t] == analyzers@[t]@);
                        }
                    }
                }
            }
            if !dup {
                let ghost prev = analyzers@;
                let owned = p.clone();
                analyzers.push(owned);
                proof {
                    assert(patterns_of(analyzers@) =~= patterns_of(prev).push(sm[a as int]));
                }
            }
        }
        a = a + 1;
    }
    proof {
        assert(sm.take(state.analyzers@.len() as int) =~= sm);
    }
    let r = WatsonState { file_list, analyzers, workflows, next_id };
    proof {
        assert(fe.take(fe.len() as int) =~= fe);
        assert(r.wf());
    }
    r
}

/// Decode a snapshot buffer and rehydrate the store. A buffer that does not
/// decode fails as a whole with DecodeFailure, and the caller falls back to
/// an empty store.
pub fn deserialize(bytes: &Vec<u8>) -> (r: Result<WatsonState, WatsonError>)
    ensures
        r is Ok <==> dec_state(bytes@) is Some,
        r is Err ==> r->Err_0 == WatsonError::DecodeFailure,
        r is Ok ==> (r->Ok_0).wf() && file_recs_model((r->Ok_0).file_list@) == rehydrate_files(
            dec_state(bytes@)->0.files,
        ) && workflow_recs_model((r->Ok_0).workflows@) == rehydrate_workflows(
            dec_state(bytes@)->0.workflows,
        ) && (r->Ok_0).patterns_view() == rehydrate_patterns(dec_state(bytes@)->0.analyzers),
{
    match decode_state(bytes) {
        None => Err(WatsonError::DecodeFailure),
        Some(wire) => Ok(to_watson_state(wire)),
    }
}


// ---- the round trip through the store ----

proof fn lemma_rehydrate_rendered_files(v: Seq<FileRecord>)
    requires
        forall|i: int, j: int|
            0 <= i < j < v.len() ==> (#[trigger] v[i]).id != (#[trigger] v[j]).id,
        forall|i: int| 0 <= i < v.len() ==> (#[trigger] v[i]).id < u64::MAX,
    ensures
        rehydrate_files(files_wire(v)) == file_recs_model(v),
    decreases v.len(),
{
    if v.len() > 0 {
        let pre_v = v.drop_last();
        assert(forall|i: int| 0 <= i < pre_v.len() ==> #[trigger] pre_v[i] == v[i]);
        lemma_rehydrate_rendered_files(pre_v);
        assert(files_wire(v).drop_last() =~= files_wire(pre_v));
        let e = files_wire(v).last();
        let id = v.last().id;
        lemma_parse_render_id(id);
        assert(spec_parse_id(e.0) == Some(id));
        let pre = file_recs_model(pre_v);
        assert(!rf_ids(pre).contains(id)) by {
            assert forall|t: int| 0 <= t < rf_ids(pre).len() implies rf_ids(pre)[t] != id by {
                assert(rf_ids(pre)[t] == pre_v[t].id);
                assert(v[t].id != v[v.len() - 1].id);
            }
        }
        assert(rehydrate_files(files_wire(v)) == pre.push((id, e.1)));
        assert(file_recs_model(v) =~= pre.push((id, e.1)));
    }
}

proof fn lemma_rehydrate_rendered_workflows(v: Seq<WorkflowRecord>)
    requires
        forall|i: int, j: int|
            0 <= i < j < v.len() ==> (#[trigger] v[i]).id != (#[trigger] v[j]).id,
        forall|i: int| 0 <= i < v.len() ==> (#[trigger] v[i]).id < u64::MAX,
    ensures
        rehydrate_workflows(workflows_wire(v)) == workflow_recs_model(v),
    decreases v.len(),
{
    if v.len() > 0 {
        let pre_v = v.drop_last();
        assert(forall|i: int| 0 <= i < pre_v.len() ==> #[trigger] pre_v[i] == v[i]);
        lemma_rehydrate_rendered_workflows(pre_v);
        assert(workflows_wire(v).drop_last() =~= workflows_wire(pre_v));
        let e = workflows_wire(v).last();
        let id = v.last().id;
        lemma_parse_render_id(id);
        assert(spec_parse_id(e.0) == Some(id));
        let pre = workflow_recs_model(pre_v);
        assert(!rw_ids(pre).contains(id)) by {
            assert forall|t: int| 0 <= t < rw_ids(pre).len() implies rw_ids(pre)[t] != id by {
                assert(rw_ids(pre)[t] == pre_v[t].id);
                assert(v[t].id != v[v.len() - 1].id);
            }
        }
        assert(rehydrate_workflows(workflows_wire(v)) == pre.push((id, e.1)));
        assert(workflow_recs_model(v) =~= pre.push((id, e.1)));
    }
}

proof fn lemma_rehydrate_valid_patterns(v: Seq<Seq<char>>)
    requires
        forall|i: int, j: int| 0 <= i < j < v.len() ==> #[trigger] v[i] != #[trigger] v[j],
        forall|i: int| 0 <= i < v.len() ==> regex_valid(#[trigger] v[i]),
    ensures
        rehydrate_patterns(v) == v,
    decreases v.len(),
{
    if v.len() > 0 {
        let pre_v = v.drop_last();
        assert(forall|i: int| 0 <= i < pre_v.len() ==> #[trigger] pre_v[i] == v[i]);
        lemma_rehydrate_valid_patterns(pre_v);
        assert(!pre_v.contains(v.last())) by {
            assert forall|t: int| 0 <= t < pre_v.len() implies pre_v[t] != v.last() by {
                assert(v[t] != v[v.len() - 1]);
            }
        }
        assert(rehydrate_patterns(v) == pre_v.push(v.last()));
        assert(pre_v.push(v.last()) =~= v);
    }
}

/// Law: the snapshot round trip. For a well-formed store whose strings and
/// lists fit the length prefixes, the encoded snapshot decodes back to the
/// exact wire structure, and rehydrating that wire structure reproduces the
/// same documents (by content and name), the same pattern set, and the same
/// workflows (by name and steps), each under its own identifier.
pub proof fn lemma_snapshot_round_trip(s: WatsonState)
    requires
        s.wf(),
        model_fits(wire_of(s)),
    ensures
        dec_state(enc_state(wire_of(s))) == Some(wire_of(s)),
        rehydrate_files(wire_of(s).files) == file_recs_model(s.file_list@),
        rehydrate_workflows(wire_of(s).workflows) == workflow_recs_model(s.workflows@),
        rehydrate_patterns(wire_of(s).analyzers) == s.patterns_view(),
{
    lemma_dec_state_roundtrip(wire_of(s));
    assert(forall|i: int|
        0 <= i < s.file_list@.len() ==> (#[trigger] s.file_list@[i]).id < u64::MAX);
    lemma_rehydrate_rendered_files(s.file_list@);
    assert(forall|i: int|
        0 <= i < s.workflows@.len() ==> (#[trigger] s.workflows@[i]).id < u64::MAX);
    lemma_rehydrate_rendered_workflows(s.workflows@);
    let pv = s.patterns_view();
    assert(forall|i: int, j: int|
        0 <= i < j < pv.len() ==> #[trigger] pv[i] != #[trigger] pv[j]) by {
        assert(forall|i: int| 0 <= i < pv.len() ==> #[trigger] pv[i] == s.analyzers@[i]@);
    }
    assert(forall|i: int| 0 <= i < pv.len() ==> regex_valid(#[trigger] pv[i])) by {
        assert(forall|i: int| 0 <= i < pv.len() ==> #[trigger] pv[i] == s.analyzers@[i]@);
    }
    lemma_rehydrate_valid_patterns(pv);
}

} // verus!
