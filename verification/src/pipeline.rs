//! The transform chain: stages that each turn a node set or a byte buffer
//! into a byte buffer, applied one after the other.
use vstd::prelude::*;
use vstd::utf8::{encode_utf8, encode_utf8_decode_utf8, valid_utf8};
use crate::base64::{base64_encode, encode_bytes};
use crate::canonical::{canonical_form, canonicalize};
use crate::digest::{SHA1, digest, digest_of, is_supported, supports};
use crate::document::{Document, NodeView};
use crate::error::Error;
use crate::nodeset::{EntryView, NodeSet, select, selection};
use crate::text::utf8_str;

verus! {

/// A stage of the chain, with its configuration.
#[derive(Debug)]
pub enum TransformStage {
    /// Inclusive canonicalization, without comments.
    Canonicalize,
    /// A digest; the stage holds the identifier of the algorithm.
    Digest(String),
    /// Base64 encoding.
    Base64Encode,
}

/// What a stage consumes.
#[derive(Debug)]
pub enum StageInput {
    Nodes(NodeSet),
    Bytes(Vec<u8>),
}

/// The value of what a stage consumes.
pub enum Data {
    Nodes(Seq<EntryView>),
    Bytes(Seq<u8>),
}

impl View for StageInput {
    type V = Data;

    open spec fn view(&self) -> Data {
        match self {
            StageInput::Nodes(set) => Data::Nodes(set@),
            StageInput::Bytes(bytes) => Data::Bytes(bytes@),
        }
    }
}

/// The bytes that a stage on bytes reads: the bytes themselves, or the
/// canonical form of a node set.
pub open spec fn data_bytes(data: Data) -> Result<Seq<u8>, Error> {
    match data {
        Data::Nodes(entries) => canonical_form(entries),
        Data::Bytes(bytes) => Ok(bytes),
    }
}

/// True when the stage can be applied: a digest stage has to name a
/// supported algorithm.
pub open spec fn stage_supported(stage: TransformStage) -> bool {
    match stage {
        TransformStage::Digest(algorithm) => is_supported(algorithm@),
        _ => true,
    }
}

/// What a stage gives for an input. A digest stage refuses an unsupported
/// algorithm before it reads its input. A stage on bytes that is handed a
/// node set reads the canonical form of the node set. Canonicalization of
/// bytes would take a parser and is refused.
pub open spec fn stage_output(stage: TransformStage, input: Data) -> Result<Seq<u8>, Error> {
    match stage {
        TransformStage::Canonicalize => match input {
            Data::Nodes(entries) => canonical_form(entries),
            Data::Bytes(_) => Err(Error::ParseError),
        },
        TransformStage::Digest(algorithm) => if !is_supported(algorithm@) {
            Err(Error::UnknownAlgorithm)
        } else {
            match data_bytes(input) {
                Ok(bytes) => Ok(digest_of(bytes, algorithm@)),
                Err(e) => Err(e),
            }
        },
        TransformStage::Base64Encode => match data_bytes(input) {
            Ok(bytes) => Ok(base64_encode(bytes)),
            Err(e) => Err(e),
        },
    }
}

/// What the first `count` stages make of an input, each stage reading what
/// the stage before it wrote. The first failure ends the chain.
pub open spec fn chain(stages: Seq<TransformStage>, count: int, input: Data) -> Result<Data, Error>
    decreases count,
{
    if count <= 0 {
        Ok(input)
    } else {
        match chain(stages, count - 1, input) {
            Ok(data) => match stage_output(stages[count - 1], data) {
                Ok(bytes) => Ok(Data::Bytes(bytes)),
                Err(e) => Err(e),
            },
            Err(e) => Err(e),
        }
    }
}

/// True when every stage can be applied.
pub open spec fn all_supported(stages: Seq<TransformStage>) -> bool {
    forall|k: int| 0 <= k < stages.len() ==> stage_supported(#[trigger] stages[k])
}

/// The bytes that a pipeline makes of a node set: `UnknownAlgorithm` where
/// a stage cannot be applied, whatever the node set; else what the chain of
/// all stages gives.
pub open spec fn pipeline_output(stages: Seq<TransformStage>, entries: Seq<EntryView>) -> Result<
    Seq<u8>,
    Error,
> {
    if !all_supported(stages) {
        Err(Error::UnknownAlgorithm)
    } else {
        match chain(stages, stages.len() as int, Data::Nodes(entries)) {
            Ok(data) => data_bytes(data),
            Err(e) => Err(e),
        }
    }
}

/// The bytes of the text that a pipeline gives for a context node of a
/// document: `UnknownAlgorithm` where a stage cannot be applied; else the
/// failure of the selector, where it fails; else what the pipeline makes of
/// the selected node set, which has to be well-formed UTF-8.
pub open spec fn run_output(
    stages: Seq<TransformStage>,
    nodes: Seq<NodeView>,
    context: int,
) -> Result<Seq<u8>, Error> {
    if !all_supported(stages) {
        Err(Error::UnknownAlgorithm)
    } else {
        match selection(nodes, context, false, false) {
            Ok(entries) => match pipeline_output(stages, entries) {
                Ok(bytes) => if valid_utf8(bytes) {
                    Ok(bytes)
                } else {
                    Err(Error::EncodingError)
                },
                Err(e) => Err(e),
            },
            Err(e) => Err(e),
        }
    }
}

/// True when the node set that is selected for a context node, where one
/// is selected, has no more entries than a list holds.
pub open spec fn selection_fits(nodes: Seq<NodeView>, context: int) -> bool {
    match selection(nodes, context, false, false) {
        Ok(entries) => entries.len() <= usize::MAX,
        Err(_) => true,
    }
}

/// The text of a result.
pub open spec fn result_text(r: Result<String, Error>) -> Result<Seq<char>, Error> {
    match r {
        Ok(text) => Ok(text@),
        Err(e) => Err(e),
    }
}

/// True when `r` is what a run of the stages may return for a context node
/// of a document: the text whose bytes the stages give, or their failure.
pub open spec fn run_returns(
    stages: Seq<TransformStage>,
    nodes: Seq<NodeView>,
    context: int,
    r: Result<Seq<char>, Error>,
) -> bool {
    match r {
        Ok(text) => run_output(stages, nodes, context) == Ok::<Seq<u8>, Error>(encode_utf8(text)),
        Err(e) => run_output(stages, nodes, context) == Err::<Seq<u8>, Error>(e),
    }
}

/// Determinism: whatever two runs of the same stages return for the same
/// context node of the same document, they return the same.
pub proof fn lemma_run_deterministic(
    stages: Seq<TransformStage>,
    nodes: Seq<NodeView>,
    context: int,
    first: Result<Seq<char>, Error>,
    second: Result<Seq<char>, Error>,
)
    requires
        run_returns(stages, nodes, context, first),
        run_returns(stages, nodes, context, second),
    ensures
        first == second,
{
    if first is Ok {
        encode_utf8_decode_utf8(first.unwrap());
        encode_utf8_decode_utf8(second.unwrap());
    }
}

impl Clone for TransformStage {
    fn clone(&self) -> (copy: Self)
        ensures
            copy == *self,
    {
        match self {
            TransformStage::Canonicalize => TransformStage::Canonicalize,
            TransformStage::Digest(algorithm) => TransformStage::Digest(algorithm.clone()),
            TransformStage::Base64Encode => TransformStage::Base64Encode,
        }
    }
}

impl TransformStage {
    /// Returns true when the stage can be applied.
    pub fn is_supported(&self) -> (yes: bool)
        ensures
            yes == stage_supported(*self),
    {
        match self {
            TransformStage::Digest(algorithm) => supports(algorithm.as_str()),
            _ => true,
        }
    }

    /// Applies the stage to an input.
    pub fn apply(&self, input: StageInput) -> (r: Result<Vec<u8>, Error>)
        ensures
            match r {
                Ok(bytes) => stage_output(*self, input@) == Ok::<Seq<u8>, Error>(bytes@),
                Err(e) => stage_output(*self, input@) == Err::<Seq<u8>, Error>(e),
            },
    {
        match self {
            TransformStage::Canonicalize => match input {
                StageInput::Nodes(set) => canonicalize(&set),
                StageInput::Bytes(_) => Err(Error::ParseError),
            },
            TransformStage::Digest(algorithm) => {
                if !supports(algorithm.as_str()) {
                    return Err(Error::UnknownAlgorithm);
                }
                match input_bytes(input) {
                    Ok(bytes) => digest(bytes.as_slice(), algorithm.as_str()),
                    Err(e) => Err(e),
                }
            },
            TransformStage::Base64Encode => match input_bytes(input) {
                Ok(bytes) => Ok(encode_bytes(bytes.as_slice())),
                Err(e) => Err(e),
            },
        }
    }
}

/// Returns the bytes that a stage on bytes reads from its input.
fn input_bytes(input: StageInput) -> (r: Result<Vec<u8>, Error>)
    ensures
        match r {
            Ok(bytes) => data_bytes(input@) == Ok::<Seq<u8>, Error>(bytes@),
            Err(e) => data_bytes(input@) == Err::<Seq<u8>, Error>(e),
        },
{
    match input {
        StageInput::Nodes(set) => canonicalize(&set),
        StageInput::Bytes(bytes) => Ok(bytes),
    }
}

/// An ordered sequence of stages. It holds no XML data.
#[derive(Debug)]
pub struct Pipeline {
    pub stages: Vec<TransformStage>,
}

impl Pipeline {
    /// Returns a pipeline without stages.
    pub fn new() -> (p: Pipeline)
        ensures
            p.stages@.len() == 0,
    {
        Pipeline { stages: Vec::new() }
    }

    /// Returns the pipeline that digests a subtree: canonicalization, SHA-1,
    /// Base64.
    pub fn standard() -> (p: Pipeline)
        ensures
            is_standard(p.stages@),
    {
        let mut stages: Vec<TransformStage> = Vec::new();
        stages.push(TransformStage::Canonicalize);
        stages.push(TransformStage::Digest(SHA1.to_owned()));
        stages.push(TransformStage::Base64Encode);
        Pipeline { stages }
    }

    /// Adds a stage behind the stages that the pipeline holds.
    pub fn append(&mut self, stage: TransformStage)
        ensures
            final(self).stages@ == old(self).stages@.push(stage),
    {
        self.stages.push(stage);
    }

    /// Returns true when every stage can be applied.
    pub fn is_supported(&self) -> (yes: bool)
        ensures
            yes == all_supported(self.stages@),
    {
        let mut k: usize = 0;
        while k < self.stages.len()
            invariant
                k <= self.stages@.len(),
                forall|j: int| 0 <= j < k ==> stage_supported(#[trigger] self.stages@[j]),
            decreases self.stages@.len() - k,
        {
            if !self.stages[k].is_supported() {
                return false;
            }
            k = k + 1;
        }
        true
    }

    /// Applies the stages, in their order, to a node set.
    pub fn execute(&self, set: NodeSet) -> (r: Result<Vec<u8>, Error>)
        ensures
            match r {
                Ok(bytes) => pipeline_output(self.stages@, set@) == Ok::<Seq<u8>, Error>(bytes@),
                Err(e) => pipeline_output(self.stages@, set@) == Err::<Seq<u8>, Error>(e),
            },
            !all_supported(self.stages@) ==> r == Err::<Vec<u8>, Error>(Error::UnknownAlgorithm),
    {
        if !self.is_supported() {
            return Err(Error::UnknownAlgorithm);
        }
        let ghost first = Data::Nodes(set@);
        let mut data = StageInput::Nodes(set);
        let mut k: usize = 0;
        while k < self.stages.len()
            invariant
                k <= self.stages@.len(),
                all_supported(self.stages@),
                first == Data::Nodes(set@),
                chain(self.stages@, k as int, first) == Ok::<Data, Error>(data@),
            decreases self.stages@.len() - k,
        {
            match self.stages[k].apply(data) {
                Ok(bytes) => {
                    data = StageInput::Bytes(bytes);
                },
                Err(e) => {
                    proof {
                        lemma_chain_fails(self.stages@, k + 1, self.stages@.len() as int, first);
                    }
                    return Err(e);
                },
            }
            k = k + 1;
        }
        input_bytes(data)
    }

    /// Computes the text that the pipeline gives for the subtree of
    /// `context`: selects its nodes, without comments, applies the stages,
    /// and hands the bytes out as text.
    pub fn run(&self, doc: &Document, context: usize) -> (r: Result<String, Error>)
        requires
            doc.wf(),
        ensures
            run_returns(self.stages@, doc@, context as int, result_text(r)),
            !all_supported(self.stages@) ==> r == Err::<String, Error>(Error::UnknownAlgorithm),
            all_supported(self.stages@) ==> selection_fits(doc@, context as int),
    {
        if !self.is_supported() {
            return Err(Error::UnknownAlgorithm);
        }
        let set = match select(doc, context, false, false) {
            Ok(set) => set,
            Err(e) => {
                return Err(e);
            },
        };
        proof {
            assert(set.entries.len() == set.entries@.len());
        }
        let bytes = match self.execute(set) {
            Ok(bytes) => bytes,
            Err(e) => {
                return Err(e);
            },
        };
        match utf8_str(bytes.as_slice()) {
            Some(text) => Ok(text.to_owned()),
            None => Err(Error::EncodingError),
        }
    }
}

/// True of the stages of the standard pipeline: canonicalization, SHA-1,
/// Base64.
pub open spec fn is_standard(stages: Seq<TransformStage>) -> bool {
    &&& stages.len() == 3
    &&& stages[0] is Canonicalize
    &&& match stages[1] {
        TransformStage::Digest(algorithm) => algorithm@ == SHA1@,
        _ => false,
    }
    &&& stages[2] is Base64Encode
}

/// A chain that has failed stays failed, whatever stages follow.
pub proof fn lemma_chain_fails(stages: Seq<TransformStage>, failed: int, count: int, input: Data)
    requires
        0 <= failed <= count,
        chain(stages, failed, input) is Err,
    ensures
        chain(stages, count, input) == chain(stages, failed, input),
    decreases count - failed,
{
    if failed < count {
        lemma_chain_fails(stages, failed, count - 1, input);
    }
}

} // verus!
