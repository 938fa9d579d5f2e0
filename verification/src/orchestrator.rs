//! The translation of one document, chunk by chunk, as a state machine. The
//! machine decides what is asked of the model and what is written; whoever
//! drives it talks to the model and to the output, and reports back.

use crate::chunker::pattern::{concat, lemma_concat_add, lemma_concat_one};
use crate::chunker::{
    answer_close, answer_open, chunks, divide_into_chunks, extract_translated_from_response,
    extracted, texts,
};
use vstd::prelude::*;

verus! {

/// Where the translation of a document stands.
#[derive(Clone, Copy, Debug, PartialEq, Eq, Structural)]
pub enum Phase {
    /// No document has been handed in yet.
    Idle,
    /// The translation of the current chunk has been asked for.
    Translating,
    /// The correction of the current chunk's translation has been asked for.
    Fixing,
    /// The text for the current chunk has been handed out to be written.
    Appending,
    /// Every chunk has been written.
    Done,
}

/// What the driver reports to the machine.
#[derive(Debug, PartialEq, Eq)]
pub enum Event {
    /// The document to translate.
    Start(String),
    /// The reply of the model to the last request.
    Reply(String),
    /// The last text has been written.
    Appended,
}

/// What the machine asks of the driver.
#[derive(Debug, PartialEq, Eq)]
pub enum Action {
    /// Send this request to the model and report its reply.
    Ask(String),
    /// Write this text behind all that was written before, and report it.
    Append(String),
    /// Nothing is left to do.
    Finish,
}

/// An event, by the text it carries.
pub enum Input {
    Start(Seq<char>),
    Reply(Seq<char>),
    Appended,
}

/// An action, by the text it carries.
pub enum Output {
    Ask(Seq<char>),
    Append(Seq<char>),
    Finish,
}

impl View for Event {
    type V = Input;

    open spec fn view(&self) -> Input {
        match self {
            Event::Start(document) => Input::Start(document@),
            Event::Reply(text) => Input::Reply(text@),
            Event::Appended => Input::Appended,
        }
    }
}

impl View for Action {
    type V = Output;

    open spec fn view(&self) -> Output {
        match self {
            Action::Ask(request) => Output::Ask(request@),
            Action::Append(text) => Output::Append(text@),
            Action::Finish => Output::Finish,
        }
    }
}

/// The request for the translation of `chunk`: the instruction, then the
/// chunk between document tags.
pub open spec fn translation_request(prompt: Seq<char>, chunk: Seq<char>) -> Seq<char> {
    prompt + "<document>\n"@ + chunk + "</document>"@
}

/// The request for the correction of a translation: the instruction, then the
/// chunk as it stands in the document between document tags and its translation between
/// translated tags.
pub open spec fn fixer_request(prompt: Seq<char>, chunk: Seq<char>, translated: Seq<char>) -> Seq<
    char,
> {
    prompt + "<document>\n"@ + chunk + "</document>\n"@ + "<translated>\n"@ + translated
        + "</translated>"@
}

/// The answer that a reply of the model holds.
pub open spec fn answer(reply: Seq<char>) -> Seq<char> {
    extracted(reply, answer_open(), answer_close())
}

/// The translation of one document, as the machine sees it.
pub struct Run {
    /// The instruction in front of every chunk to translate.
    pub translate_prompt: Seq<char>,
    /// The instruction of the second pass; `None` where there is no second pass.
    pub fixer_prompt: Option<Seq<char>>,
    /// The number of lines per chunk.
    pub lines_per_chunk: nat,
    /// The chunks of the document, in order.
    pub chunks: Seq<Seq<char>>,
    /// The index of the chunk in work; the number of chunks written so far.
    pub position: nat,
    /// Where the work on that chunk stands.
    pub phase: Phase,
}

impl Run {
    /// A run that has its document holds a chunk to work on until it is done.
    pub open spec fn wf(self) -> bool {
        match self.phase {
            Phase::Idle => self.chunks.len() == 0 && self.position == 0,
            Phase::Translating | Phase::Appending => self.position < self.chunks.len(),
            Phase::Fixing => self.position < self.chunks.len() && self.fixer_prompt is Some,
            Phase::Done => self.position == self.chunks.len(),
        }
    }

    /// The run in another phase.
    pub open spec fn in_phase(self, phase: Phase) -> Run {
        Run { phase, ..self }
    }

    /// The request for the translation of chunk `i`.
    pub open spec fn request_for(self, i: int) -> Seq<char> {
        translation_request(self.translate_prompt, self.chunks[i])
    }

    /// What the run becomes on `input`, and what it then asks for; `None`
    /// where the input does not fit the phase.
    ///
    /// An idle run takes the document, cuts it into chunks and asks for the
    /// translation of the first. The reply to that is either handed out to be
    /// written, reduced to its answer, or, with a second pass, sent back
    /// beside the chunk for correction, and the answer of that reply is
    /// handed out. Once a text is written the next chunk follows, and after
    /// the last chunk the run is done.
    pub open spec fn step(self, input: Input) -> Option<(Run, Output)> {
        match (self.phase, input) {
            (Phase::Idle, Input::Start(document)) => {
                let started = Run {
                    chunks: chunks(document, self.lines_per_chunk as int),
                    position: 0,
                    phase: Phase::Translating,
                    ..self
                };
                Some((started, Output::Ask(started.request_for(0))))
            },
            (Phase::Translating, Input::Reply(reply)) => match self.fixer_prompt {
                Some(prompt) => Some(
                    (
                        self.in_phase(Phase::Fixing),
                        Output::Ask(
                            fixer_request(prompt, self.chunks[self.position as int], answer(reply)),
                        ),
                    ),
                ),
                None => Some((self.in_phase(Phase::Appending), Output::Append(answer(reply)))),
            },
            (Phase::Fixing, Input::Reply(reply)) => Some(
                (self.in_phase(Phase::Appending), Output::Append(answer(reply))),
            ),
            (Phase::Appending, Input::Appended) => {
                let advanced = Run { position: self.position + 1, ..self };
                if advanced.position < self.chunks.len() {
                    Some(
                        (
                            advanced.in_phase(Phase::Translating),
                            Output::Ask(advanced.request_for(advanced.position as int)),
                        ),
                    )
                } else {
                    Some((advanced.in_phase(Phase::Done), Output::Finish))
                }
            },
            _ => None,
        }
    }

    /// The number of inputs that the run can still take before it is done,
    /// where every reply comes: two or three per chunk, and one to start.
    pub open spec fn steps_left(self) -> int {
        let per_chunk: int = if self.fixer_prompt is Some {
            3
        } else {
            2
        };
        let chunks_left = self.chunks.len() - self.position;
        match self.phase {
            Phase::Idle => 1,
            Phase::Translating => per_chunk * chunks_left,
            Phase::Fixing => per_chunk * chunks_left - 1,
            Phase::Appending => per_chunk * (chunks_left - 1) + 1,
            Phase::Done => 0,
        }
    }

    /// The text that the run hands out for `chunk` where `model` gives the
    /// reply to every request: the answer to the request for the translation
    /// of the chunk or, with a second pass, the answer to the request for the
    /// correction of that answer.
    pub open spec fn written_for(self, chunk: Seq<char>, model: spec_fn(Seq<char>) -> Seq<char>) -> Seq<
        char,
    > {
        let draft = answer(model(translation_request(self.translate_prompt, chunk)));
        match self.fixer_prompt {
            Some(prompt) => answer(model(fixer_request(prompt, chunk, draft))),
            None => draft,
        }
    }

    /// All that is written from here on by a driver that performs `pending`
    /// and every action after it, for at most `inputs` inputs: it sends each
    /// request to `model` and reports the reply, and it writes each text that
    /// is handed out and reports that.
    pub open spec fn driven(
        self,
        pending: Output,
        model: spec_fn(Seq<char>) -> Seq<char>,
        inputs: nat,
    ) -> Seq<char>
        decreases inputs,
    {
        if inputs == 0 {
            Seq::empty()
        } else {
            match pending {
                Output::Finish => Seq::empty(),
                Output::Ask(request) => match self.step(Input::Reply(model(request))) {
                    Some((next, output)) => next.driven(output, model, (inputs - 1) as nat),
                    None => Seq::empty(),
                },
                Output::Append(text) => text + match self.step(Input::Appended) {
                    Some((next, output)) => next.driven(output, model, (inputs - 1) as nat),
                    None => Seq::empty(),
                },
            }
        }
    }
}

/// The translation of one document: the instructions, the chunks and the
/// place in them.
pub struct Translation {
    translate_prompt: String,
    fixer_prompt: Option<String>,
    lines_per_chunk: usize,
    chunks: Vec<String>,
    position: usize,
    phase: Phase,
}

impl View for Translation {
    type V = Run;

    closed spec fn view(&self) -> Run {
        Run {
            translate_prompt: self.translate_prompt@,
            fixer_prompt: match self.fixer_prompt {
                Some(prompt) => Some(prompt@),
                None => None,
            },
            lines_per_chunk: self.lines_per_chunk as nat,
            chunks: texts(self.chunks@),
            position: self.position as nat,
            phase: self.phase,
        }
    }
}

/// Builds the request for the translation of `chunk`.
pub fn build_translation_request(prompt: &str, chunk: &str) -> (request: String)
    ensures
        request@ == translation_request(prompt@, chunk@),
{
    let mut request = String::new();
    request.append(prompt);
    request.append("<document>\n");
    request.append(chunk);
    request.append("</document>");
    assert(request@ =~= translation_request(prompt@, chunk@));
    request
}

/// Builds the request for the correction of `translated`, the translation of
/// `chunk`.
pub fn build_fixer_request(prompt: &str, chunk: &str, translated: &str) -> (request: String)
    ensures
        request@ == fixer_request(prompt@, chunk@, translated@),
{
    let mut request = String::new();
    request.append(prompt);
    request.append("<document>\n");
    request.append(chunk);
    request.append("</document>\n");
    request.append("<translated>\n");
    request.append(translated);
    request.append("</translated>");
    assert(request@ =~= fixer_request(prompt@, chunk@, translated@));
    request
}

impl Translation {
    #[verifier::type_invariant]
    spec fn inv(self) -> bool {
        self@.wf()
    }

    /// A translation that waits for its document. Every chunk is translated
    /// under `translate_prompt`; with a `fixer_prompt` each translation goes
    /// through a second pass under it.
    pub fn new(translate_prompt: String, fixer_prompt: Option<String>, lines_per_chunk: usize) -> (t:
        Translation)
        ensures
            t@ == (Run {
                translate_prompt: translate_prompt@,
                fixer_prompt: match fixer_prompt {
                    Some(prompt) => Some(prompt@),
                    None => None,
                },
                lines_per_chunk: lines_per_chunk as nat,
                chunks: Seq::empty(),
                position: 0,
                phase: Phase::Idle,
            }),
            t@.wf(),
    {
        let t = Translation {
            translate_prompt,
            fixer_prompt,
            lines_per_chunk,
            chunks: Vec::new(),
            position: 0,
            phase: Phase::Idle,
        };
        assert(t@.chunks =~= Seq::<Seq<char>>::empty());
        t
    }

    /// Where the translation stands.
    pub fn phase(&self) -> (phase: Phase)
        ensures
            phase == self@.phase,
    {
        self.phase
    }

    /// The number of chunks written so far.
    pub fn position(&self) -> (position: usize)
        ensures
            position == self@.position,
    {
        self.position
    }

    /// The number of chunks of the document; 0 before the document is in.
    pub fn chunk_count(&self) -> (count: usize)
        ensures
            count == self@.chunks.len(),
    {
        self.chunks.len()
    }

    /// Whether every chunk has been written.
    pub fn is_done(&self) -> (done: bool)
        ensures
            done == (self@.phase == Phase::Done),
    {
        self.phase == Phase::Done
    }

    /// Takes `event` and returns the translation as it then stands, with the
    /// action that the driver is to perform next. An event that does not fit
    /// the phase changes nothing and yields no action.
    pub fn step(self, event: Event) -> (r: (Translation, Option<Action>))
        ensures
            r.0@.wf(),
            match self@.step(event@) {
                Some((run, output)) => {
                    &&& r.0@ == run
                    &&& r.1 matches Some(action)
                    &&& action@ == output
                },
                None => r.0@ == self@ && r.1 is None,
            },
    {
        proof {
            use_type_invariant(&self);
            assert(self@.chunks.len() == self.chunks.len());
        }
        match self.phase {
            Phase::Idle => match event {
                Event::Start(document) => {
                    let chunks = divide_into_chunks(document, self.lines_per_chunk);
                    proof {
                        crate::chunker::laws::lemma_chunks_nonempty(
                            document@,
                            self.lines_per_chunk as int,
                        );
                    }
                    let request = build_translation_request(
                        self.translate_prompt.as_str(),
                        chunks[0].as_str(),
                    );
                    let next = Translation {
                        translate_prompt: self.translate_prompt,
                        fixer_prompt: self.fixer_prompt,
                        lines_per_chunk: self.lines_per_chunk,
                        chunks,
                        position: 0,
                        phase: Phase::Translating,
                    };
                    (next, Some(Action::Ask(request)))
                },
                _ => (self, None),
            },
            Phase::Translating => match event {
                Event::Reply(reply) => {
                    let draft = extract_translated_from_response(reply);
                    match &self.fixer_prompt {
                        Some(prompt) => {
                            let request = build_fixer_request(
                                prompt.as_str(),
                                self.chunks[self.position].as_str(),
                                draft.as_str(),
                            );
                            (self.moved_to(Phase::Fixing), Some(Action::Ask(request)))
                        },
                        None => (self.moved_to(Phase::Appending), Some(Action::Append(draft))),
                    }
                },
                _ => (self, None),
            },
            Phase::Fixing => match event {
                Event::Reply(reply) => {
                    let fixed = extract_translated_from_response(reply);
                    (self.moved_to(Phase::Appending), Some(Action::Append(fixed)))
                },
                _ => (self, None),
            },
            Phase::Appending => match event {
                Event::Appended => {
                    let position = self.position + 1;
                    if position < self.chunks.len() {
                        let request = build_translation_request(
                            self.translate_prompt.as_str(),
                            self.chunks[position].as_str(),
                        );
                        let next = Translation {
                            translate_prompt: self.translate_prompt,
                            fixer_prompt: self.fixer_prompt,
                            lines_per_chunk: self.lines_per_chunk,
                            chunks: self.chunks,
                            position,
                            phase: Phase::Translating,
                        };
                        (next, Some(Action::Ask(request)))
                    } else {
                        let next = Translation {
                            translate_prompt: self.translate_prompt,
                            fixer_prompt: self.fixer_prompt,
                            lines_per_chunk: self.lines_per_chunk,
                            chunks: self.chunks,
                            position,
                            phase: Phase::Done,
                        };
                        (next, Some(Action::Finish))
                    }
                },
                _ => (self, None),
            },
            Phase::Done => (self, None),
        }
    }

    /// The same translation in another phase.
    fn moved_to(self, phase: Phase) -> (t: Translation)
        requires
            self@.in_phase(phase).wf(),
        ensures
            t@ == self@.in_phase(phase),
    {
        Translation {
            translate_prompt: self.translate_prompt,
            fixer_prompt: self.fixer_prompt,
            lines_per_chunk: self.lines_per_chunk,
            chunks: self.chunks,
            position: self.position,
            phase,
        }
    }
}

/// A step keeps a run well formed.
pub proof fn lemma_step_keeps_wf(run: Run, input: Input)
    requires
        run.wf(),
    ensures
        run.step(input) matches Some((next, _)) ==> next.wf(),
{
    if let Input::Start(document) = input {
        crate::chunker::laws::lemma_chunks_nonempty(document, run.lines_per_chunk as int);
    }
}

/// Every step that a run accepts brings it one input nearer to its end, and a
/// run that is done accepts nothing: after the document, a run takes two
/// inputs per chunk, or three with a second pass, and no more.
pub proof fn lemma_step_counts_down(run: Run, input: Input)
    requires
        run.wf(),
    ensures
        run.phase == Phase::Done ==> run.step(input) is None,
        run.phase != Phase::Idle ==> (run.step(input) matches Some((next, _)) ==> next.steps_left()
            == run.steps_left() - 1),
        run.steps_left() >= 0,
        run.steps_left() == 0 <==> run.phase == Phase::Done,
{
    let per_chunk: int = if run.fixer_prompt is Some {
        3
    } else {
        2
    };
    let left = run.chunks.len() - run.position;
    assert(per_chunk * left >= per_chunk * 1 || left <= 0) by (nonlinear_arith)
        requires
            per_chunk >= 2,
    ;
    assert(per_chunk * (left - 1) == per_chunk * left - per_chunk) by (nonlinear_arith);
    assert(per_chunk * (left - 1) >= 0 || left <= 0) by (nonlinear_arith)
        requires
            per_chunk >= 2,
    ;
}

/// From the request for chunk `position` on, a driven run writes what the
/// model answers for that chunk and for every chunk behind it, in order.
proof fn lemma_driven_from(run: Run, model: spec_fn(Seq<char>) -> Seq<char>)
    requires
        run.wf(),
        run.phase == Phase::Translating,
    ensures
        run.driven(
            Output::Ask(run.request_for(run.position as int)),
            model,
            run.steps_left() as nat,
        ) == concat(
            run.chunks.skip(run.position as int).map_values(
                |chunk: Seq<char>| run.written_for(chunk, model),
            ),
        ),
    decreases run.chunks.len() - run.position,
{
    let write = |chunk: Seq<char>| run.written_for(chunk, model);
    let p = run.position as int;
    let chunk = run.chunks[p];
    let rest = run.chunks.skip(p + 1);
    let per_chunk: int = if run.fixer_prompt is Some {
        3
    } else {
        2
    };
    let left = run.chunks.len() - p;
    assert(per_chunk * left == per_chunk * (left - 1) + per_chunk) by (nonlinear_arith);
    assert(per_chunk * (left - 1) >= 0) by (nonlinear_arith)
        requires
            per_chunk >= 2,
            left >= 1,
    ;
    let advanced = Run { position: run.position + 1, ..run };
    let after = if p + 1 < run.chunks.len() {
        advanced.in_phase(Phase::Translating)
    } else {
        advanced.in_phase(Phase::Done)
    };
    let tail = if p + 1 < run.chunks.len() {
        after.driven(Output::Ask(after.request_for(p + 1)), model, after.steps_left() as nat)
    } else {
        Seq::<char>::empty()
    };
    assert(run.driven(Output::Ask(run.request_for(p)), model, run.steps_left() as nat)
        == run.written_for(chunk, model) + tail) by {
        reveal_with_fuel(Run::driven, 5);
    }
    if p + 1 < run.chunks.len() {
        lemma_driven_from(after, model);
        assert(after.chunks.skip(p + 1).map_values(
            |chunk: Seq<char>| after.written_for(chunk, model),
        ) =~= rest.map_values(write));
    } else {
        assert(rest.map_values(write) =~= Seq::<Seq<char>>::empty());
        assert(concat(rest.map_values(write)) =~= Seq::<char>::empty());
    }
    assert(run.chunks.skip(p).map_values(write) =~= seq![write(chunk)] + rest.map_values(write));
    lemma_concat_add(seq![write(chunk)], rest.map_values(write));
    lemma_concat_one(write(chunk));
}

/// A run that is driven from its document to its end writes, for every chunk
/// of the document in order, the answer of the model for that chunk, and
/// nothing else: what is written is those answers joined.
pub proof fn lemma_run_writes_answers_in_order(
    run: Run,
    document: Seq<char>,
    model: spec_fn(Seq<char>) -> Seq<char>,
)
    requires
        run.wf(),
        run.phase == Phase::Idle,
    ensures
        run.step(Input::Start(document)) matches Some((started, first)) && started.driven(
            first,
            model,
            started.steps_left() as nat,
        ) == concat(
            chunks(document, run.lines_per_chunk as int).map_values(
                |chunk: Seq<char>| run.written_for(chunk, model),
            ),
        ),
{
    let (started, first) = run.step(Input::Start(document))->0;
    crate::chunker::laws::lemma_chunks_nonempty(document, run.lines_per_chunk as int);
    lemma_driven_from(started, model);
    assert(started.chunks.skip(0) =~= started.chunks);
    assert(started.chunks.map_values(|chunk: Seq<char>| started.written_for(chunk, model))
        =~= chunks(document, run.lines_per_chunk as int).map_values(
        |chunk: Seq<char>| run.written_for(chunk, model),
    ));
}

} // verus!
