//! What is asked of the graph for each chunk, and what its answer means.
//!
//! Silero is recurrent: each chunk's probability depends on the ones before
//! it, carried in a `state` tensor the model returns alongside the answer.
//! The caller holds that tensor and hands it back on the next chunk.

use crate::binary32::{self, Binary32};
use crate::binary64::Binary64;
use crate::clock::{CHUNK, SAMPLE_RATE};
use crate::text;
use vstd::prelude::*;
use vstd::string::*;

verus! {

/// The name the host binds the graph to.
pub const MODEL: &'static str = "speech";

/// The graph's own names for the tensors it takes and returns.
pub const INPUT_NAME: &'static str = "input";

pub const STATE_NAME: &'static str = "state";

pub const RATE_NAME: &'static str = "sr";

pub const OUTPUT_NAME: &'static str = "output";

pub const NEXT_STATE_NAME: &'static str = "stateN";

/// Floats in the recurrent state, whose shape is 2 by 1 by 128.
pub const STATE_LEN: usize = 256;

/// What kind of numbers a tensor holds.
#[derive(Clone, Copy, Debug, PartialEq, Eq, Structural)]
pub enum TensorType {
    Fp32,
    I64,
}

/// A tensor handed to the graph.
pub struct Input {
    pub name: &'static str,
    pub dimensions: Vec<u32>,
    pub kind: TensorType,
    pub data: Vec<u8>,
}

/// A tensor handed to the graph, as values.
pub struct Given {
    pub name: Seq<char>,
    pub dimensions: Seq<u32>,
    pub kind: TensorType,
    pub data: Seq<u8>,
}

impl View for Input {
    type V = Given;

    open spec fn view(&self) -> Given {
        Given {
            name: self.name@,
            dimensions: self.dimensions@,
            kind: self.kind,
            data: self.data@,
        }
    }
}

/// A tensor the graph returned.
pub struct Output {
    pub name: String,
    pub data: Vec<u8>,
}

/// What kind of error the host reports.
#[derive(Clone, Copy, Debug, PartialEq, Eq, Structural)]
pub enum ErrorCode {
    InvalidArgument,
    InvalidEncoding,
    Timeout,
    RuntimeError,
    UnsupportedOperation,
    TooLarge,
    NotFound,
    Security,
    Unknown,
}

/// An error the host reports.
pub struct Failure {
    pub code: ErrorCode,
    pub data: String,
}

impl ErrorCode {
    /// The code's spelling in messages.
    pub open spec fn spelling(self) -> Seq<char> {
        match self {
            ErrorCode::InvalidArgument => "invalid-argument"@,
            ErrorCode::InvalidEncoding => "invalid-encoding"@,
            ErrorCode::Timeout => "timeout"@,
            ErrorCode::RuntimeError => "runtime-error"@,
            ErrorCode::UnsupportedOperation => "unsupported-operation"@,
            ErrorCode::TooLarge => "too-large"@,
            ErrorCode::NotFound => "not-found"@,
            ErrorCode::Security => "security"@,
            ErrorCode::Unknown => "unknown"@,
        }
    }

    fn spelled(self) -> (r: &'static str)
        ensures
            r@ == self.spelling(),
    {
        match self {
            ErrorCode::InvalidArgument => "invalid-argument",
            ErrorCode::InvalidEncoding => "invalid-encoding",
            ErrorCode::Timeout => "timeout",
            ErrorCode::RuntimeError => "runtime-error",
            ErrorCode::UnsupportedOperation => "unsupported-operation",
            ErrorCode::TooLarge => "too-large",
            ErrorCode::NotFound => "not-found",
            ErrorCode::Security => "security",
            ErrorCode::Unknown => "unknown",
        }
    }
}

/// The message for a failed step.
pub open spec fn failure_said(what: Seq<char>, code: ErrorCode, data: Seq<char>) -> Seq<char> {
    "speech: "@ + what + ": "@ + code.spelling() + " ("@ + data + ")"@
}

/// The host's own spelling of an error code, so a message says what actually
/// went wrong rather than how this module happens to format things.
pub fn failed(what: &str, error: &Failure) -> (r: String)
    ensures
        r@ == failure_said(what@, error.code, error.data@),
{
    let mut r: String = "speech: ".to_owned();
    r.append(what);
    r.append(": ");
    r.append(error.code.spelled());
    r.append(" (");
    r.append(error.data.as_str());
    r.append(")");
    r
}

/// The message for a graph that cannot be loaded by its name.
pub fn load_failed(error: &Failure) -> (r: String)
    ensures
        r@ == failure_said("load-by-name(\"speech\")"@, error.code, error.data@),
{
    failed("load-by-name(\"speech\")", error)
}

/// The message for a graph that no session can be built on.
pub fn context_failed(error: &Failure) -> (r: String)
    ensures
        r@ == failure_said("init-execution-context"@, error.code, error.data@),
{
    failed("init-execution-context", error)
}

/// A number as so many bytes, lowest first.
pub open spec fn little_endian(n: nat, count: nat) -> Seq<u8>
    decreases count,
{
    if count == 0 {
        Seq::empty()
    } else {
        seq![(n % 256) as u8] + little_endian(n / 256, (count - 1) as nat)
    }
}

/// The tensors the graph takes for one chunk: the samples, the state carried
/// so far, and the rate, which is a scalar and carries no dimensions.
pub open spec fn asked(state: Seq<Binary32>, samples: Seq<Binary32>) -> Seq<Given> {
    seq![
        Given {
            name: INPUT_NAME@,
            dimensions: seq![1u32, CHUNK as u32],
            kind: TensorType::Fp32,
            data: binary32::bytes_of(samples),
        },
        Given {
            name: STATE_NAME@,
            dimensions: seq![2u32, 1u32, 128u32],
            kind: TensorType::Fp32,
            data: binary32::bytes_of(state),
        },
        Given {
            name: RATE_NAME@,
            dimensions: Seq::empty(),
            kind: TensorType::I64,
            data: little_endian(SAMPLE_RATE as nat, 8),
        },
    ]
}

/// A number as eight bytes, lowest first.
fn eight_bytes(n: u64) -> (r: Vec<u8>)
    ensures
        r@ == little_endian(n as nat, 8),
{
    let mut r: Vec<u8> = Vec::new();
    let mut rest: u64 = n;
    let mut i: u64 = 0;
    while i < 8
        invariant
            i <= 8,
            r@ + little_endian(rest as nat, (8 - i) as nat) == little_endian(n as nat, 8),
        decreases 8 - i,
    {
        let ghost before = r@;
        let ghost tail = little_endian((rest / 256) as nat, (8 - i - 1) as nat);
        r.push((rest % 256) as u8);
        assert(before + (seq![(rest % 256) as u8] + tail) =~= r@ + tail);
        rest = rest / 256;
        i = i + 1;
    }
    assert(r@ + Seq::<u8>::empty() =~= r@);
    r
}

/// What to compute for one chunk.
pub fn request(state: &[Binary32], samples: &[Binary32]) -> (r: Vec<Input>)
    ensures
        r@.len() == 3,
        forall|i: int| 0 <= i < 3 ==> (#[trigger] r@[i])@ == asked(state@, samples@)[i],
        r@[0].name@ == "input"@,
        r@[0].dimensions@ == seq![1u32, 512],
        r@[0].kind == TensorType::Fp32,
        binary32::floats_of(r@[0].data@) == samples@,
        r@[1].name@ == "state"@,
        r@[1].dimensions@ == seq![2u32, 1, 128],
        r@[1].kind == TensorType::Fp32,
        binary32::floats_of(r@[1].data@) == state@,
        r@[2].name@ == "sr"@,
        r@[2].dimensions@.len() == 0,
        r@[2].kind == TensorType::I64,
        r@[2].data@ == seq![0x80u8, 0x3e, 0, 0, 0, 0, 0, 0],
{
    proof {
        questions_spell_what_they_ask(state@, samples@);
    }
    let input: Input = Input {
        name: INPUT_NAME,
        dimensions: vec![1, CHUNK as u32],
        kind: TensorType::Fp32,
        data: binary32::to_bytes(samples),
    };
    let carried: Input = Input {
        name: STATE_NAME,
        dimensions: vec![2, 1, 128],
        kind: TensorType::Fp32,
        data: binary32::to_bytes(state),
    };
    let rate: Input = Input {
        name: RATE_NAME,
        dimensions: Vec::new(),
        kind: TensorType::I64,
        data: eight_bytes(SAMPLE_RATE as u64),
    };
    assert(input.dimensions@ =~= seq![1u32, CHUNK as u32]);
    assert(carried.dimensions@ =~= seq![2u32, 1u32, 128u32]);
    vec![input, carried, rate]
}

/// The data of the first tensor with this name.
pub open spec fn data_named(outputs: Seq<Output>, want: Seq<char>) -> Option<Seq<u8>>
    decreases outputs.len(),
{
    if outputs.len() == 0 {
        None
    } else if outputs[0].name@ == want {
        Some(outputs[0].data@)
    } else {
        data_named(outputs.skip(1), want)
    }
}

/// The state an answer returns, if it returns one of the right length.
pub open spec fn returned_state(computed: Result<Vec<Output>, Failure>) -> Option<Seq<Binary32>> {
    match computed {
        Err(_) => None,
        Ok(outputs) => match data_named(outputs@, NEXT_STATE_NAME@) {
            None => None,
            Some(data) => if binary32::floats_of(data).len() == STATE_LEN {
                Some(binary32::floats_of(data))
            } else {
                None
            },
        },
    }
}

/// The state after an answer: the one returned, or else the one before.
pub open spec fn state_after(
    state: Seq<Binary32>,
    computed: Result<Vec<Output>, Failure>,
) -> Seq<Binary32> {
    match returned_state(computed) {
        Some(next) => next,
        None => state,
    }
}

/// The last state these answers return, or `state` where none of them does.
pub open spec fn last_returned(
    state: Seq<Binary32>,
    answers: Seq<Result<Vec<Output>, Failure>>,
) -> Seq<Binary32>
    decreases answers.len(),
{
    if answers.len() == 0 {
        state
    } else {
        match returned_state(answers.last()) {
            Some(next) => next,
            None => last_returned(state, answers.drop_last()),
        }
    }
}

/// What an answer says: how likely the chunk is to be speech, or what is
/// wrong with the answer.
pub open spec fn answered(computed: Result<Vec<Output>, Failure>) -> Result<Binary64, Seq<char>> {
    match computed {
        Err(error) => Err(failure_said("compute"@, error.code, error.data@)),
        Ok(outputs) => match data_named(outputs@, NEXT_STATE_NAME@) {
            None => Err("speech: the graph returned no tensor named "@ + NEXT_STATE_NAME@),
            Some(state) => if binary32::floats_of(state).len() != STATE_LEN {
                Err(
                    "speech: the graph returned "@ + text::decimal(
                        binary32::floats_of(state).len(),
                    ) + " state value(s), expected 256"@,
                )
            } else {
                match data_named(outputs@, OUTPUT_NAME@) {
                    None => Err("speech: the graph returned no tensor named "@ + OUTPUT_NAME@),
                    Some(answer) => if binary32::floats_of(answer).len() == 0 {
                        Err("speech: the graph returned no probability"@)
                    } else {
                        Ok(binary32::floats_of(answer)[0].widened())
                    },
                }
            },
        },
    }
}

/// The place of the first tensor with this name.
fn position(outputs: &Vec<Output>, want: &str) -> (r: Option<usize>)
    ensures
        match r {
            Some(i) => i < outputs@.len() && data_named(outputs@, want@) == Some(
                outputs@[i as int].data@,
            ),
            None => data_named(outputs@, want@) is None,
        },
{
    let wanted: String = want.to_owned();
    let mut i: usize = 0;
    assert(outputs@.skip(0) =~= outputs@);
    while i < outputs.len()
        invariant
            i <= outputs@.len(),
            wanted@ == want@,
            data_named(outputs@, want@) == data_named(outputs@.skip(i as int), want@),
        decreases outputs.len() - i,
    {
        if outputs[i].name == wanted {
            return Some(i);
        }
        assert(outputs@.skip(i as int).skip(1) =~= outputs@.skip(i + 1));
        i = i + 1;
    }
    None
}

fn unnamed(want: &str) -> (r: String)
    ensures
        r@ == "speech: the graph returned no tensor named "@ + want@,
{
    let mut r: String = "speech: the graph returned no tensor named ".to_owned();
    r.append(want);
    r
}

/// One chunk's answer from the graph: how likely it is to be speech, with the
/// recurrent state advanced onto the next chunk. The state advances as soon
/// as a whole one was returned, whatever else is missing.
pub fn probability(
    state: &mut Vec<Binary32>,
    computed: Result<Vec<Output>, Failure>,
) -> (r: Result<Binary64, String>)
    ensures
        final(state)@ == state_after(old(state)@, computed),
        match r {
            Ok(found) => answered(computed) == Ok::<Binary64, Seq<char>>(found),
            Err(message) => answered(computed) == Err::<Binary64, Seq<char>>(message@),
        },
        computed matches Ok(outputs) ==> forall|i: int| #[trigger]
            is_first(outputs@, "stateN"@, i) && outputs@[i].data@.len() / 4 == 256
                ==> binary32::bytes_of(final(state)@) == outputs@[i].data@.take(1024),
{
    proof {
        lemma_carried(state@, computed);
    }
    let outputs: Vec<Output> = match computed {
        Err(error) => return Err(failed("compute", &error)),
        Ok(outputs) => outputs,
    };
    let next: Vec<Binary32> = match position(&outputs, NEXT_STATE_NAME) {
        None => return Err(unnamed(NEXT_STATE_NAME)),
        Some(i) => binary32::to_floats(outputs[i].data.as_slice()),
    };
    if next.len() != STATE_LEN {
        return Err(
            text::join(
                "speech: the graph returned ",
                text::decimal_text(next.len() as u64).as_str(),
                " state value(s), expected 256",
            ),
        );
    }
    *state = next;
    let answer: Vec<Binary32> = match position(&outputs, OUTPUT_NAME) {
        None => return Err(unnamed(OUTPUT_NAME)),
        Some(i) => binary32::to_floats(outputs[i].data.as_slice()),
    };
    if answer.len() == 0 {
        return Err("speech: the graph returned no probability".to_owned());
    }
    Ok(answer[0].widen())
}

/// Whether tensor `i` is the first with this name.
pub open spec fn is_first(outputs: Seq<Output>, want: Seq<char>, i: int) -> bool {
    &&& 0 <= i < outputs.len()
    &&& outputs[i].name@ == want
    &&& forall|j: int| 0 <= j < i ==> (#[trigger] outputs[j]).name@ != want
}

/// Where several tensors have one name, the first of them counts.
pub proof fn the_first_of_a_name_counts(outputs: Seq<Output>, want: Seq<char>, i: int)
    requires
        0 <= i < outputs.len(),
        outputs[i].name@ == want,
        forall|j: int| 0 <= j < i ==> (#[trigger] outputs[j]).name@ != want,
    ensures
        is_first(outputs, want, i),
        forall|k: int| k != i ==> !#[trigger] is_first(outputs, want, k),
        data_named(outputs, want) == Some(outputs[i].data@),
{
    tensors_go_by_their_names(outputs, want);
    assert(is_first(outputs, want, i));
    assert forall|k: int| k != i implies !#[trigger] is_first(outputs, want, k) by {
        if is_first(outputs, want, k) {
            if i < k {
                assert(outputs[i].name@ != want);
            } else {
                assert(outputs[k].name@ != want);
            }
        }
    }
}

/// A tensor is looked up by its name: the data is that of the first with the
/// name, and there is none exactly when no tensor has it.
pub proof fn tensors_go_by_their_names(outputs: Seq<Output>, want: Seq<char>)
    ensures
        data_named(outputs, want) is None <==> forall|j: int|
            0 <= j < outputs.len() ==> (#[trigger] outputs[j]).name@ != want,
        forall|i: int| #[trigger]
            is_first(outputs, want, i) ==> data_named(outputs, want) == Some(outputs[i].data@),
        data_named(outputs, want) is Some ==> exists|i: int| #[trigger] is_first(outputs, want, i),
    decreases outputs.len(),
{
    if outputs.len() > 0 {
        let rest = outputs.skip(1);
        tensors_go_by_their_names(rest, want);
        if outputs[0].name@ == want {
            assert(is_first(outputs, want, 0));
            assert forall|i: int| #[trigger] is_first(outputs, want, i) implies data_named(
                outputs,
                want,
            ) == Some(outputs[i].data@) by {
                assert(i == 0 || outputs[0].name@ != want);
            }
        } else {
            assert forall|i: int| #[trigger] is_first(outputs, want, i) implies data_named(
                outputs,
                want,
            ) == Some(outputs[i].data@) by {
                assert(rest[i - 1] == outputs[i]);
                assert forall|j: int| 0 <= j < i - 1 implies (#[trigger] rest[j]).name@
                    != want by {
                    assert(rest[j] == outputs[j + 1]);
                }
                assert(is_first(rest, want, i - 1));
            }
            if data_named(rest, want) is Some {
                let i = choose|i: int| #[trigger] is_first(rest, want, i);
                assert(rest[i] == outputs[i + 1]);
                assert forall|j: int| 0 <= j < i + 1 implies (#[trigger] outputs[j]).name@
                    != want by {
                    if j > 0 {
                        assert(rest[j - 1] == outputs[j]);
                    }
                }
                assert(is_first(outputs, want, i + 1));
            } else {
                assert forall|j: int| 0 <= j < outputs.len() implies (#[trigger] outputs[j]).name@
                    != want by {
                    if j > 0 {
                        assert(rest[j - 1] == outputs[j]);
                    }
                }
            }
        }
    }
}

/// Number `k` of the state carried on is what bytes `4 * k` to `4 * k + 3` of
/// the first tensor named `stateN` spell.
pub proof fn the_returned_state_spells_its_tensor(
    state: Seq<Binary32>,
    outputs: Vec<Output>,
    i: int,
    k: int,
)
    requires
        is_first(outputs@, "stateN"@, i),
        outputs@[i].data@.len() / 4 == 256,
        0 <= k < 256,
    ensures
        ({
            let data = outputs@[i].data@;
            let after = state_after(state, Ok(outputs));
            &&& after.len() == 256
            &&& after[k].bits == data[4 * k] + 256 * data[4 * k + 1] + 65536 * data[4 * k + 2]
                + 16777216 * data[4 * k + 3]
        }),
{
    tensors_go_by_their_names(outputs@, "stateN"@);
    binary32::four_bytes_make_a_number(outputs@[i].data@);
    binary32::bytes_are_read_in_order(outputs@[i].data@, k);
}

/// The state is carried as it was returned: its bytes are those of the first
/// tensor named `stateN`, in order, when that spells 256 floats.
pub proof fn the_returned_state_is_carried_as_it_is(
    state: Seq<Binary32>,
    outputs: Vec<Output>,
    i: int,
)
    requires
        is_first(outputs@, "stateN"@, i),
    ensures
        ({
            let data = outputs@[i].data@;
            let after = state_after(state, Ok(outputs));
            if data.len() / 4 == 256 {
                &&& returned_state(Ok(outputs)) == Some(after)
                &&& binary32::bytes_of(after) == data.take(1024)
            } else {
                &&& returned_state(Ok(outputs)) is None
                &&& after == state
            }
        }),
{
    tensors_go_by_their_names(outputs@, "stateN"@);
    let data = outputs@[i].data@;
    binary32::four_bytes_make_a_number(data);
    assert(data_named(outputs@, NEXT_STATE_NAME@) == Some(data));
    binary32::leftover_bytes_spell_nothing(data);
    assert(data.len() / 4 == 256 ==> 4 * (data.len() / 4) == 1024);
}

proof fn lemma_carried(state: Seq<Binary32>, computed: Result<Vec<Output>, Failure>)
    ensures
        computed matches Ok(outputs) ==> forall|i: int| #[trigger]
            is_first(outputs@, "stateN"@, i) && outputs@[i].data@.len() / 4 == 256
                ==> binary32::bytes_of(state_after(state, computed)) == outputs@[i].data@.take(1024),
{
    if let Ok(outputs) = computed {
        assert forall|i: int| #[trigger] is_first(outputs@, "stateN"@, i)
            && outputs@[i].data@.len() / 4 == 256 implies binary32::bytes_of(
            state_after(state, computed),
        ) == outputs@[i].data@.take(1024) by {
            the_returned_state_is_carried_as_it_is(state, outputs, i);
        }
    }
}

/// A failure, or an answer without a `stateN` tensor, leaves the state.
pub proof fn no_state_returned_leaves_the_state(
    state: Seq<Binary32>,
    computed: Result<Vec<Output>, Failure>,
)
    requires
        computed matches Ok(outputs) ==> forall|j: int|
            0 <= j < outputs@.len() ==> (#[trigger] outputs@[j]).name@ != "stateN"@,
    ensures
        returned_state(computed) is None,
        state_after(state, computed) == state,
{
    if let Ok(outputs) = computed {
        tensors_go_by_their_names(outputs@, "stateN"@);
    }
}

/// The last state returned is that of the last answer that returns one.
pub proof fn the_last_answer_with_a_state_counts(
    state: Seq<Binary32>,
    answers: Seq<Result<Vec<Output>, Failure>>,
    next: Result<Vec<Output>, Failure>,
)
    ensures
        last_returned(state, Seq::empty()) == state,
        last_returned(state, answers.push(next)) == match returned_state(next) {
            Some(found) => found,
            None => last_returned(state, answers),
        },
{
    assert(answers.push(next).drop_last() =~= answers);
}

/// What an answer says, in full. A failure is passed on; a missing or short
/// state and a missing or empty probability are refused, in that order; and
/// otherwise the probability is the number that the first four bytes of the
/// first tensor named `output` spell.
pub proof fn answers_say_how_likely(computed: Result<Vec<Output>, Failure>)
    ensures
        match computed {
            Err(error) => answered(computed) == Err::<Binary64, Seq<char>>(
                "speech: compute: "@ + error.code.spelling() + " ("@ + error.data@ + ")"@,
            ),
            Ok(outputs) => {
                &&& (forall|j: int|
                    0 <= j < outputs@.len() ==> (#[trigger] outputs@[j]).name@ != "stateN"@)
                    ==> answered(computed) == Err::<Binary64, Seq<char>>(
                    "speech: the graph returned no tensor named stateN"@,
                )
                &&& forall|i: int| #[trigger]
                    is_first(outputs@, "stateN"@, i) && outputs@[i].data@.len() / 4 != 256
                        ==> answered(computed) == Err::<Binary64, Seq<char>>(
                        "speech: the graph returned "@ + text::decimal(
                            outputs@[i].data@.len() / 4,
                        ) + " state value(s), expected 256"@,
                    )
                &&& forall|i: int| #[trigger]
                    is_first(outputs@, "stateN"@, i) && outputs@[i].data@.len() / 4 == 256 && (
                    forall|j: int|
                        0 <= j < outputs@.len() ==> (#[trigger] outputs@[j]).name@ != "output"@)
                        ==> answered(computed) == Err::<Binary64, Seq<char>>(
                        "speech: the graph returned no tensor named output"@,
                    )
                &&& forall|i: int, k: int|
                    #![trigger is_first(outputs@, "stateN"@, i), is_first(outputs@, "output"@, k)]
                    is_first(outputs@, "stateN"@, i) && outputs@[i].data@.len() / 4 == 256
                        && is_first(outputs@, "output"@, k) ==> answered(computed) == if outputs@[
                    k].data@.len() < 4 {
                        Err::<Binary64, Seq<char>>("speech: the graph returned no probability"@)
                    } else {
                        let data = outputs@[k].data@;
                        let bits = data[0] + 256 * data[1] + 65536 * data[2] + 16777216 * data[3];
                        Ok((Binary32 { bits: bits as u32 }).widened())
                    }
            },
        },
{
    match computed {
        Err(error) => {
            reveal_strlit("speech: ");
            reveal_strlit("compute");
            reveal_strlit(": ");
            reveal_strlit("speech: compute: ");
            assert("speech: "@ + "compute"@ + ": "@ =~= "speech: compute: "@);
        },
        Ok(outputs) => {
            tensors_go_by_their_names(outputs@, "stateN"@);
            tensors_go_by_their_names(outputs@, "output"@);
            reveal_strlit("stateN");
            reveal_strlit("output");
            reveal_strlit("speech: the graph returned no tensor named ");
            reveal_strlit("speech: the graph returned no tensor named stateN");
            reveal_strlit("speech: the graph returned no tensor named output");
            assert("speech: the graph returned no tensor named "@ + "stateN"@
                =~= "speech: the graph returned no tensor named stateN"@);
            assert("speech: the graph returned no tensor named "@ + "output"@
                =~= "speech: the graph returned no tensor named output"@);
        },
    }
}

/// Bytes, lowest first, as the number they make.
pub open spec fn number_of(bytes: Seq<u8>) -> int
    decreases bytes.len(),
{
    if bytes.len() == 0 {
        0
    } else {
        bytes[0] + 256 * number_of(bytes.skip(1))
    }
}

/// A number written in bytes is that number again, as far as the bytes go.
pub proof fn bytes_make_their_number(n: nat, count: nat)
    ensures
        little_endian(n, count).len() == count,
        count == 8 && n < 0x1_0000_0000_0000_0000 ==> number_of(little_endian(n, count)) == n,
{
    lemma_bytes_make(n, count);
    if count == 8 {
        vstd::arithmetic::power2::lemma2_to64();
        vstd::arithmetic::power2::lemma2_to64_rest();
    }
}

proof fn lemma_bytes_make(n: nat, count: nat)
    ensures
        little_endian(n, count).len() == count,
        n < vstd::arithmetic::power2::pow2(8 * count) ==> number_of(little_endian(n, count)) == n,
    decreases count,
{
    if count == 0 {
        vstd::arithmetic::power2::lemma2_to64();
    } else {
        let rest = little_endian(n / 256, (count - 1) as nat);
        lemma_bytes_make(n / 256, (count - 1) as nat);
        assert(little_endian(n, count).skip(1) =~= rest);
        vstd::arithmetic::power2::lemma2_to64();
        vstd::arithmetic::power2::lemma_pow2_adds(8, (8 * count - 8) as nat);
    }
}

/// Bytes `4 * k` to `4 * k + 3` of a question's first tensor spell sample `k`,
/// and of its second number `k` of the state.
pub proof fn questions_spell_each_number(state: Seq<Binary32>, samples: Seq<Binary32>, k: int)
    ensures
        ({
            let (input, carried) = (
                asked(state, samples)[0].data,
                asked(state, samples)[1].data,
            );
            &&& 0 <= k < samples.len() ==> samples[k].bits == input[4 * k] + 256 * input[4 * k + 1]
                + 65536 * input[4 * k + 2] + 16777216 * input[4 * k + 3]
            &&& 0 <= k < state.len() ==> state[k].bits == carried[4 * k] + 256 * carried[4 * k + 1]
                + 65536 * carried[4 * k + 2] + 16777216 * carried[4 * k + 3]
        }),
{
    if 0 <= k < samples.len() {
        binary32::bytes_are_written_in_order(samples, k);
    }
    if 0 <= k < state.len() {
        binary32::bytes_are_written_in_order(state, k);
    }
}

/// What a question to the graph spells: the chunk's samples and the state, as
/// the very floats they are and in order, and the rate of 16000 as an integer,
/// under the names the graph knows them by.
pub proof fn questions_spell_what_they_ask(state: Seq<Binary32>, samples: Seq<Binary32>)
    ensures
        ({
            let given = asked(state, samples);
            &&& given.len() == 3
            &&& given[0].name == "input"@
            &&& given[0].dimensions == seq![1u32, 512]
            &&& given[0].kind == TensorType::Fp32
            &&& given[0].data.len() == 4 * samples.len()
            &&& binary32::floats_of(given[0].data) == samples
            &&& given[1].name == "state"@
            &&& given[1].dimensions == seq![2u32, 1, 128]
            &&& given[1].kind == TensorType::Fp32
            &&& given[1].data.len() == 4 * state.len()
            &&& binary32::floats_of(given[1].data) == state
            &&& given[2].name == "sr"@
            &&& given[2].dimensions.len() == 0
            &&& given[2].kind == TensorType::I64
            &&& given[2].data == seq![0x80u8, 0x3e, 0, 0, 0, 0, 0, 0]
        }),
{
    binary32::floats_survive_bytes(samples);
    binary32::floats_survive_bytes(state);
    assert(little_endian(16_000, 8) == seq![0x80u8, 0x3e, 0, 0, 0, 0, 0, 0]) by {
        reveal_with_fuel(little_endian, 9);
        assert(little_endian(16_000, 8) =~= seq![0x80u8, 0x3e, 0, 0, 0, 0, 0, 0]);
    }
}

/// A tensor as values is what it holds.
pub proof fn a_tensor_is_what_it_holds(input: Input)
    ensures
        input@.name == input.name@,
        input@.dimensions == input.dimensions@,
        input@.kind == input.kind,
        input@.data == input.data@,
{
}

/// What the host and the graph are told by name.
pub proof fn names_are_the_graphs_own()
    ensures
        MODEL@ == "speech"@,
        STATE_LEN == 256,
{
}

/// How a failure is told: what failed, the code as the host spells it, and
/// what the host said.
pub proof fn failures_are_told_in_full(what: Seq<char>, code: ErrorCode, data: Seq<char>)
    ensures
        failure_said(what, code, data) == "speech: "@ + what + ": "@ + code.spelling() + " ("@ + data
            + ")"@,
        code.spelling() == match code {
            ErrorCode::InvalidArgument => "invalid-argument"@,
            ErrorCode::InvalidEncoding => "invalid-encoding"@,
            ErrorCode::Timeout => "timeout"@,
            ErrorCode::RuntimeError => "runtime-error"@,
            ErrorCode::UnsupportedOperation => "unsupported-operation"@,
            ErrorCode::TooLarge => "too-large"@,
            ErrorCode::NotFound => "not-found"@,
            ErrorCode::Security => "security"@,
            ErrorCode::Unknown => "unknown"@,
        },
{
}

} // verus!
