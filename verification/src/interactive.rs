//! An interactive session: commands that build a model, fill a dataset, and use the two.
//!
//! A command is a list of words. What it says and what it changes is decided here. Reading
//! files, fetching over the network and following gradients is asked of the caller.
use vstd::prelude::*;
use crate::data;
use crate::data::{make_classification, make_regression, split_at, Dataset};
use crate::format::Textual;
use crate::grpo;
use crate::loss::squared_errors;
use crate::nn;
use crate::nn::{Draws, Layer, Linear, Module, ReLU, Sequential, Sigmoid, Tanh};
use crate::number::Real;
use crate::optim;
use crate::optim::fraction;
use crate::table;
use crate::tensor;
use crate::tensor::{Op, Tensor, Value};
use crate::text;
use crate::text::{
    chars_of, is_text, join, owned, parse_number, push_chars, push_decimal, push_text, string_of,
    words,
};

verus! {

/// What a session has come to.
pub struct Session<S> {
    pub model: Option<Sequential<Layer<S>>>,
    pub model_input_dim: Option<usize>,
    pub model_output_dim: Option<usize>,
    pub dataset: Option<Dataset<S>>,
    pub feature_columns: Vec<String>,
    pub target_column: Option<String>,
    /// What part of the rows is for training; nothing for all of them.
    pub split_ratio: Option<S>,
}

impl<S: Real> Session<S> {
    pub open spec fn wf(&self) -> bool {
        &&& self.model matches Some(m) ==> m.wf()
        &&& self.dataset matches Some(d) ==> d.wf()
    }

    /// A session in which nothing has happened.
    pub fn new() -> (r: Self)
        ensures
            r.wf(),
            is_fresh(r),
    {
        Session {
            model: None,
            model_input_dim: None,
            model_output_dim: None,
            dataset: None,
            feature_columns: Vec::new(),
            target_column: None,
            split_ratio: None,
        }
    }
}

pub open spec fn is_fresh<S>(s: Session<S>) -> bool {
    &&& s.model is None
    &&& s.model_input_dim is None
    &&& s.model_output_dim is None
    &&& s.dataset is None
    &&& s.feature_columns@.len() == 0
    &&& s.target_column is None
    &&& s.split_ratio is None
}

impl<S: Real> Default for Session<S> {
    fn default() -> (r: Self)
        ensures
            r.wf(),
            is_fresh(r),
    {
        Self::new()
    }
}

// ---- Words

/// The number that a word stands for, or another where it stands for none.
pub open spec fn count_in(s: Seq<char>, other: nat) -> nat {
    match text::read_number(s, usize::MAX as nat) {
        Some(n) => n,
        None => other,
    }
}

fn read_count(s: &[char], other: usize) -> (r: usize)
    ensures
        r == count_in(s@, other as nat),
{
    match parse_number(s, usize::MAX as u64) {
        Some(n) => n as usize,
        None => other,
    }
}

/// The number that one of the words stands for, or another where there is no such word.
pub open spec fn count_at(words: Seq<Seq<char>>, i: int, other: nat) -> nat {
    if i < words.len() {
        count_in(words[i], other)
    } else {
        other
    }
}

fn read_count_at(args: &[Vec<char>], i: usize, other: usize) -> (r: usize)
    ensures
        r == count_at(text::views(args@), i as int, other as nat),
{
    if i < args.len() {
        assert(text::views(args@)[i as int] == args@[i as int]@);
        read_count(&args[i], other)
    } else {
        other
    }
}

/// One of the words is this.
pub open spec fn says(words: Seq<Seq<char>>, i: int, s: Seq<char>) -> bool {
    i < words.len() && words[i] == s
}

fn word_is(args: &[Vec<char>], i: usize, s: &str) -> (r: bool)
    ensures
        r == says(text::views(args@), i as int, s@),
{
    if i < args.len() {
        assert(text::views(args@)[i as int] == args@[i as int]@);
        is_text(&args[i], s)
    } else {
        false
    }
}

/// The numbers among the words from a place on.
pub open spec fn counts_from(words: Seq<Seq<char>>, from: int, n: int) -> Seq<usize>
    decreases n - from,
{
    if n <= from {
        Seq::empty()
    } else {
        match text::read_number(words[n - 1], usize::MAX as nat) {
            Some(k) => counts_from(words, from, n - 1).push(k as usize),
            None => counts_from(words, from, n - 1),
        }
    }
}

fn read_counts(args: &[Vec<char>], from: usize) -> (r: Vec<usize>)
    requires
        from <= args@.len(),
    ensures
        r@ == counts_from(text::views(args@), from as int, args@.len() as int),
{
    let mut r: Vec<usize> = Vec::new();
    let n: usize = args.len();
    for i in from..n
        invariant
            n == args@.len(),
            r@ == counts_from(text::views(args@), from as int, i as int),
    {
        assert(text::views(args@)[i as int] == args@[i as int]@);
        match parse_number(&args[i], usize::MAX as u64) {
            Some(k) => {
                r.push(k as usize);
            },
            None => {},
        }
    }
    r
}

/// The text of a list of strings as the standard library writes it for debugging.
pub uninterp spec fn debug_list(v: Seq<Seq<char>>) -> Seq<char>;

/// Writes a list of strings with `format!` and `{:?}`, that is with the standard library's
/// `Debug` of `Vec<String>`. The text depends on the strings alone.
#[verifier::external_body]
fn show_list(v: &Vec<String>) -> (r: String)
    ensures
        r@ == debug_list(text::texts(v@)),
{
    format!("{:?}", v)
}

// ---- What is to be done

/// What a line asks for.
pub enum Command {
    Nothing,
    Help,
    Quit,
    TensorWords,
    ModelWords,
    DataWords,
    TrainWords,
    PredictWords,
    Info,
    Unknown(String),
}

/// The words for each command.
pub open spec fn is_command(c: Command, words: Seq<Seq<char>>) -> bool {
    let w = words[0];
    if words.len() == 0 {
        c is Nothing
    } else if w == "help"@ || w == "?"@ || w == "h"@ {
        c is Help
    } else if w == "exit"@ || w == "quit"@ || w == "q"@ {
        c is Quit
    } else if w == "tensor"@ {
        c is TensorWords
    } else if w == "model"@ {
        c is ModelWords
    } else if w == "data"@ {
        c is DataWords
    } else if w == "train"@ {
        c is TrainWords
    } else if w == "predict"@ {
        c is PredictWords
    } else if w == "info"@ {
        c is Info
    } else {
        c matches Command::Unknown(t) && t@ == "Unknown command: '"@ + w
            + "'. Type 'help' for available commands."@
    }
}

/// What a line asks for, and its words after the first.
pub fn command_of(line: &str) -> (r: (Command, Vec<Vec<char>>))
    ensures
        ({
            let w = text::words_of(line@);
            &&& is_command(r.0, w)
            &&& text::views(r.1@) == (if w.len() == 0 {
                w
            } else {
                w.skip(1)
            })
        }),
{
    let chars = chars_of(line);
    let mut all = words(&chars);
    let ghost w = text::words_of(line@);
    assert(text::views(all@) == w);
    if all.len() == 0 {
        return (Command::Nothing, all);
    }
    let ghost had = all@;
    let first = all.remove(0);
    proof {
        assert(w[0] == had[0]@);
        assert(text::views(all@) =~= w.skip(1));
    }
    let c = if is_text(&first, "help") || is_text(&first, "?") || is_text(&first, "h") {
        Command::Help
    } else if is_text(&first, "exit") || is_text(&first, "quit") || is_text(&first, "q") {
        Command::Quit
    } else if is_text(&first, "tensor") {
        Command::TensorWords
    } else if is_text(&first, "model") {
        Command::ModelWords
    } else if is_text(&first, "data") {
        Command::DataWords
    } else if is_text(&first, "train") {
        Command::TrainWords
    } else if is_text(&first, "predict") {
        Command::PredictWords
    } else if is_text(&first, "info") {
        Command::Info
    } else {
        let mut t = chars_of("Unknown command: '");
        push_chars(&mut t, &first);
        push_text(&mut t, "'. Type 'help' for available commands.");
        Command::Unknown(string_of(&t))
    };
    (c, all)
}

// ---- Tensors

/// The answer to a command on tensors.
pub enum TensorReply {
    Text(String),
    Random(Vec<usize>),
    Zeros(Vec<usize>),
    Ones(Vec<usize>),
}

pub open spec fn is_tensor_reply(r: TensorReply, words: Seq<Seq<char>>) -> bool {
    let dims = counts_from(words, 1, words.len() as int);
    if words.len() == 0 {
        r matches TensorReply::Text(t) && t@ == "Usage: tensor randn|zeros <dims...>"@
    } else if dims.len() == 0 {
        r matches TensorReply::Text(t) && t@ == "Error: provide at least one dimension"@
    } else if words[0] == "randn"@ {
        r matches TensorReply::Random(d) && d@ == dims
    } else if words[0] == "zeros"@ {
        r matches TensorReply::Zeros(d) && d@ == dims
    } else if words[0] == "ones"@ {
        r matches TensorReply::Ones(d) && d@ == dims
    } else {
        r matches TensorReply::Text(t) && t@ == "Unknown tensor command: "@ + words[0]
    }
}

/// What to do on a command on tensors.
pub fn handle_tensor(args: &[Vec<char>]) -> (r: TensorReply)
    ensures
        is_tensor_reply(r, text::views(args@)),
{
    if args.len() == 0 {
        return TensorReply::Text(owned("Usage: tensor randn|zeros <dims...>"));
    }
    let dims = read_counts(args, 1);
    if dims.len() == 0 {
        return TensorReply::Text(owned("Error: provide at least one dimension"));
    }
    assert(text::views(args@)[0] == args@[0]@);
    if is_text(&args[0], "randn") {
        TensorReply::Random(dims)
    } else if is_text(&args[0], "zeros") {
        TensorReply::Zeros(dims)
    } else if is_text(&args[0], "ones") {
        TensorReply::Ones(dims)
    } else {
        let mut t = chars_of("Unknown tensor command: ");
        push_chars(&mut t, &args[0]);
        TensorReply::Text(string_of(&t))
    }
}

// ---- Models

/// What a command does to the model.
pub enum ModelAct {
    Keep,
    Fresh,
    AddLinear { in_f: usize, out_f: usize },
    AddReLU,
    AddSigmoid,
    AddTanh,
}

pub open spec fn model_act(words: Seq<Seq<char>>, has_model: bool) -> ModelAct {
    if says(words, 0, "new"@) {
        ModelAct::Fresh
    } else if says(words, 0, "add"@) && has_model {
        if says(words, 1, "linear"@) {
            if words.len() >= 4 && count_in(words[2], 0) > 0 && count_in(words[3], 0) > 0 {
                ModelAct::AddLinear {
                    in_f: count_in(words[2], 0) as usize,
                    out_f: count_in(words[3], 0) as usize,
                }
            } else {
                ModelAct::Keep
            }
        } else if says(words, 1, "relu"@) {
            ModelAct::AddReLU
        } else if says(words, 1, "sigmoid"@) {
            ModelAct::AddSigmoid
        } else if says(words, 1, "tanh"@) {
            ModelAct::AddTanh
        } else {
            ModelAct::Keep
        }
    } else {
        ModelAct::Keep
    }
}

pub open spec fn linear_text(in_f: nat, out_f: nat) -> Seq<char> {
    "Added Linear("@ + text::digits(in_f) + " -> "@ + text::digits(out_f) + ")"@
}

fn linear_chars(in_f: usize, out_f: usize) -> (r: Vec<char>)
    ensures
        r@ == linear_text(in_f as nat, out_f as nat),
{
    let mut t = chars_of("Added Linear(");
    push_decimal(&mut t, in_f as u64);
    push_text(&mut t, " -> ");
    push_decimal(&mut t, out_f as u64);
    push_text(&mut t, ")");
    t
}

/// How many numbers the first parameters hold.
pub open spec fn total_len<S>(values: Seq<Value<S>>, n: int) -> nat
    decreases n,
{
    if n <= 0 {
        0
    } else {
        total_len(values, n - 1) + values[n - 1].data.len()
    }
}

proof fn lemma_total_len_grows<S>(values: Seq<Value<S>>, n: int, m: int)
    requires
        0 <= n <= m,
    ensures
        total_len(values, n) <= total_len(values, m),
    decreases m,
{
    if n < m {
        lemma_total_len_grows(values, n, m - 1);
    }
}

/// What is said of a model.
pub open spec fn model_summary<S: Real>(s: Session<S>) -> Seq<char> {
    match s.model {
        Some(m) => {
            let v = m.values();
            let head = "\n  Model: Sequential\n  Parameters: "@ + text::digits(v.len())
                + " tensors, "@ + text::digits(total_len(v, v.len() as int)) + " total elements"@;
            match (s.model_input_dim, s.model_output_dim) {
                (Some(i), Some(o)) => head + "\n  Input dim: "@ + text::digits(i as nat)
                    + ", Output dim: "@ + text::digits(o as nat),
                _ => head,
            }
        },
        None => "No model loaded."@,
    }
}

/// What is said to a command on the model.
pub open spec fn model_text<S: Real>(words: Seq<Seq<char>>, s: Session<S>) -> Seq<char> {
    if words.len() == 0 {
        "Usage: model new|add|summary"@
    } else if words[0] == "new"@ {
        "Started a new Sequential model."@
    } else if words[0] == "add"@ {
        if s.model is None {
            "No model. Run 'model new' first."@
        } else if words.len() < 2 {
            "Usage: model add linear|relu|sigmoid|tanh ..."@
        } else if words[1] == "linear"@ {
            if words.len() < 4 {
                "Usage: model add linear <in_features> <out_features>"@
            } else if count_in(words[2], 0) == 0 || count_in(words[3], 0) == 0 {
                "Error: invalid dimensions"@
            } else {
                linear_text(count_in(words[2], 0), count_in(words[3], 0))
            }
        } else if words[1] == "relu"@ {
            "Added ReLU"@
        } else if words[1] == "sigmoid"@ {
            "Added Sigmoid"@
        } else if words[1] == "tanh"@ {
            "Added Tanh"@
        } else {
            "Unknown layer: "@ + words[1]
        }
    } else if words[0] == "summary"@ {
        model_summary(s)
    } else {
        "Unknown model command: "@ + words[0]
    }
}

/// All but the model and its widths stays as it is.
pub open spec fn same_data<S>(a: Session<S>, b: Session<S>) -> bool {
    &&& b.dataset == a.dataset
    &&& b.feature_columns == a.feature_columns
    &&& b.target_column == a.target_column
    &&& b.split_ratio == a.split_ratio
}

/// The model with one more layer.
pub open spec fn has_added<S: Real>(a: Session<S>, b: Session<S>, l: Layer<S>) -> bool {
    match (a.model, b.model) {
        (Some(m), Some(n)) => n.layers@ == m.layers@.push(l),
        _ => false,
    }
}

/// A linear layer of the next weights was added.
pub open spec fn has_added_linear<S: Real>(
    a: Session<S>,
    b: Session<S>,
    in_f: usize,
    out_f: usize,
    draws: Seq<S>,
    at: int,
) -> bool {
    &&& same_data(a, b)
    &&& b.model_input_dim == (if a.model_input_dim is None {
        Some(in_f)
    } else {
        a.model_input_dim
    })
    &&& b.model_output_dim == Some(out_f)
    &&& exists|l: Linear<S>|
        #[trigger] nn::drawn_linear(l, in_f, out_f, true, draws, at) && has_added(
            a,
            b,
            Layer::Linear(l),
        )
}

/// The session after a command on the model.
pub open spec fn model_changed<S: Real>(
    act: ModelAct,
    a: Session<S>,
    b: Session<S>,
    draws: Seq<S>,
    at: int,
) -> bool {
    match act {
        ModelAct::Keep => b == a,
        ModelAct::Fresh => {
            &&& same_data(a, b)
            &&& b.model matches Some(m) && m.layers@.len() == 0
            &&& b.model_input_dim is None
            &&& b.model_output_dim is None
        },
        ModelAct::AddLinear { in_f, out_f } => has_added_linear(a, b, in_f, out_f, draws, at),
        ModelAct::AddReLU => same_but_model(a, b) && has_added(a, b, Layer::ReLU(ReLU)),
        ModelAct::AddSigmoid => same_but_model(a, b) && has_added(a, b, Layer::Sigmoid(Sigmoid)),
        ModelAct::AddTanh => same_but_model(a, b) && has_added(a, b, Layer::Tanh(Tanh)),
    }
}

pub open spec fn same_but_model<S>(a: Session<S>, b: Session<S>) -> bool {
    &&& same_data(a, b)
    &&& b.model_input_dim == a.model_input_dim
    &&& b.model_output_dim == a.model_output_dim
}

/// How many weights a change of the model takes.
pub open spec fn weights_of(act: ModelAct) -> int {
    match act {
        ModelAct::AddLinear { in_f, out_f } => out_f * in_f,
        _ => 0,
    }
}

pub fn read_model_act(args: &[Vec<char>], has_model: bool) -> (r: ModelAct)
    ensures
        r == model_act(text::views(args@), has_model),
{
    if word_is(args, 0, "new") {
        ModelAct::Fresh
    } else if word_is(args, 0, "add") && has_model {
        if word_is(args, 1, "linear") {
            if args.len() < 4 {
                return ModelAct::Keep;
            }
            assert(text::views(args@)[2] == args@[2]@);
            assert(text::views(args@)[3] == args@[3]@);
            let in_f: usize = read_count(&args[2], 0);
            let out_f: usize = read_count(&args[3], 0);
            if in_f > 0 && out_f > 0 {
                ModelAct::AddLinear { in_f, out_f }
            } else {
                ModelAct::Keep
            }
        } else if word_is(args, 1, "relu") {
            ModelAct::AddReLU
        } else if word_is(args, 1, "sigmoid") {
            ModelAct::AddSigmoid
        } else if word_is(args, 1, "tanh") {
            ModelAct::AddTanh
        } else {
            ModelAct::Keep
        }
    } else {
        ModelAct::Keep
    }
}

/// How many weights a command on the model takes, if that many can be counted.
pub fn weights_needed<S: Real>(args: &[Vec<char>], session: &Session<S>) -> (r: Option<usize>)
    ensures
        match r {
            Some(n) => n == weights_of(model_act(text::views(args@), session.model is Some)),
            None => weights_of(model_act(text::views(args@), session.model is Some)) > usize::MAX,
        },
{
    match read_model_act(args, session.model.is_some()) {
        ModelAct::AddLinear { in_f, out_f } => out_f.checked_mul(in_f),
        _ => Some(0),
    }
}

fn summary_chars<S: Real>(session: &Session<S>) -> (r: Vec<char>)
    requires
        session.wf(),
        session.model matches Some(m) ==> total_len(m.values(), m.values().len() as int)
            <= usize::MAX,
    ensures
        r@ == model_summary(*session),
{
    match &session.model {
        Some(m) => {
            let params = m.parameters();
            let ghost v = m.values();
            let n: usize = params.len();
            let mut total: usize = 0;
            for i in 0..n
                invariant
                    n == params@.len(),
                    nn::tensors_are(params@, v),
                    total_len(v, v.len() as int) <= usize::MAX,
                    total == total_len(v, i as int),
            {
                proof {
                    assert(params@[i as int].wf());
                    lemma_total_len_grows(v, i + 1, v.len() as int);
                }
                total = total + params[i].len();
            }
            let mut t = chars_of("\n  Model: Sequential\n  Parameters: ");
            push_decimal(&mut t, n as u64);
            push_text(&mut t, " tensors, ");
            push_decimal(&mut t, total as u64);
            push_text(&mut t, " total elements");
            match (session.model_input_dim, session.model_output_dim) {
                (Some(inp), Some(out)) => {
                    push_text(&mut t, "\n  Input dim: ");
                    push_decimal(&mut t, inp as u64);
                    push_text(&mut t, ", Output dim: ");
                    push_decimal(&mut t, out as u64);
                },
                _ => {},
            }
            t
        },
        None => chars_of("No model loaded."),
    }
}

fn model_chars<S: Real>(args: &[Vec<char>], session: &Session<S>) -> (r: Vec<char>)
    requires
        session.wf(),
        session.model matches Some(m) ==> total_len(m.values(), m.values().len() as int)
            <= usize::MAX,
    ensures
        r@ == model_text(text::views(args@), *session),
{
    if args.len() == 0 {
        return chars_of("Usage: model new|add|summary");
    }
    assert(text::views(args@)[0] == args@[0]@);
    if is_text(&args[0], "new") {
        chars_of("Started a new Sequential model.")
    } else if is_text(&args[0], "add") {
        if session.model.is_none() {
            return chars_of("No model. Run 'model new' first.");
        }
        if args.len() < 2 {
            return chars_of("Usage: model add linear|relu|sigmoid|tanh ...");
        }
        assert(text::views(args@)[1] == args@[1]@);
        if is_text(&args[1], "linear") {
            if args.len() < 4 {
                return chars_of("Usage: model add linear <in_features> <out_features>");
            }
            assert(text::views(args@)[2] == args@[2]@);
            assert(text::views(args@)[3] == args@[3]@);
            let in_f: usize = read_count(&args[2], 0);
            let out_f: usize = read_count(&args[3], 0);
            if in_f == 0 || out_f == 0 {
                return chars_of("Error: invalid dimensions");
            }
            linear_chars(in_f, out_f)
        } else if is_text(&args[1], "relu") {
            chars_of("Added ReLU")
        } else if is_text(&args[1], "sigmoid") {
            chars_of("Added Sigmoid")
        } else if is_text(&args[1], "tanh") {
            chars_of("Added Tanh")
        } else {
            let mut t = chars_of("Unknown layer: ");
            push_chars(&mut t, &args[1]);
            t
        }
    } else if is_text(&args[0], "summary") {
        summary_chars(session)
    } else {
        let mut t = chars_of("Unknown model command: ");
        push_chars(&mut t, &args[0]);
        t
    }
}

fn add_layer<S: Real>(session: &mut Session<S>, layer: Layer<S>)
    requires
        old(session).wf(),
        old(session).model is Some,
        layer.wf(),
    ensures
        final(session).wf(),
        same_but_model(*old(session), *final(session)),
        has_added(*old(session), *final(session), layer),
{
    let ghost before = session.model->0.layers@;
    match &mut session.model {
        Some(m) => {
            m.layers.push(layer);
        },
        None => {},
    }
    proof {
        let m = session.model->0;
        assert forall|i: int| 0 <= i < m.layers@.len() implies (#[trigger] m.layers@[i]).wf() by {
            if i < before.len() {
                assert(before[i].wf());
            }
        }
    }
}

fn add_linear<S: Real>(
    session: &mut Session<S>,
    in_f: usize,
    out_f: usize,
    draws: &mut Draws<S>,
)
    requires
        old(session).wf(),
        old(session).model is Some,
        old(draws).wf(),
        out_f * in_f <= old(draws).left(),
    ensures
        final(session).wf(),
        old(draws).taken(final(draws), out_f * in_f),
        has_added_linear(
            *old(session),
            *final(session),
            in_f,
            out_f,
            old(draws).values@,
            old(draws).next as int,
        ),
{
    if session.model_input_dim.is_none() {
        session.model_input_dim = Some(in_f);
    }
    session.model_output_dim = Some(out_f);
    let l = Linear::new(in_f, out_f, true, draws);
    let ghost made = l;
    add_layer(session, Layer::Linear(l));
    assert(nn::drawn_linear(
        made,
        in_f,
        out_f,
        true,
        old(draws).values@,
        old(draws).next as int,
    ));
}

/// Carries out a command on the model and says what was done.
pub fn handle_model<S: Real>(
    args: &[Vec<char>],
    session: &mut Session<S>,
    draws: &mut Draws<S>,
) -> (r: String)
    requires
        old(session).wf(),
        old(draws).wf(),
        weights_of(model_act(text::views(args@), old(session).model is Some)) <= old(draws).left(),
        old(session).model matches Some(m) ==> total_len(m.values(), m.values().len() as int)
            <= usize::MAX,
    ensures
        final(session).wf(),
        r@ == model_text(text::views(args@), *old(session)),
        ({
            let act = model_act(text::views(args@), old(session).model is Some);
            &&& old(draws).taken(final(draws), weights_of(act))
            &&& model_changed(
                act,
                *old(session),
                *final(session),
                old(draws).values@,
                old(draws).next as int,
            )
        }),
{
    let t = model_chars(args, session);
    match read_model_act(args, session.model.is_some()) {
        ModelAct::Keep => {},
        ModelAct::Fresh => {
            session.model = Some(Sequential::new());
            session.model_input_dim = None;
            session.model_output_dim = None;
        },
        ModelAct::AddLinear { in_f, out_f } => {
            add_linear(session, in_f, out_f, draws);
        },
        ModelAct::AddReLU => {
            add_layer(session, Layer::ReLU(ReLU));
        },
        ModelAct::AddSigmoid => {
            add_layer(session, Layer::Sigmoid(Sigmoid));
        },
        ModelAct::AddTanh => {
            add_layer(session, Layer::Tanh(Tanh));
        },
    }
    string_of(&t)
}

// ---- Datasets

/// What a command asks of the dataset.
pub enum DataAct {
    Usage,
    Csv,
    Tsv,
    Jsonl,
    Hub { rows: usize },
    Synthetic { n: usize, f: usize, c: usize },
    Regression { n: usize, f: usize },
    Columns,
    Head { n: usize },
    Split,
    Features,
    Target,
    Unknown,
}

pub open spec fn data_act(words: Seq<Seq<char>>) -> DataAct {
    let len = words.len();
    if len == 0 {
        DataAct::Usage
    } else if words[0] == "csv"@ && len >= 2 {
        DataAct::Csv
    } else if words[0] == "tsv"@ && len >= 2 {
        DataAct::Tsv
    } else if words[0] == "jsonl"@ && len >= 2 {
        DataAct::Jsonl
    } else if words[0] == "hf"@ && len >= 4 {
        DataAct::Hub { rows: count_in(words[3], 100) as usize }
    } else if words[0] == "synthetic"@ && len >= 4 {
        DataAct::Synthetic {
            n: count_in(words[1], 100) as usize,
            f: count_in(words[2], 4) as usize,
            c: count_in(words[3], 3) as usize,
        }
    } else if words[0] == "regression"@ && len >= 3 {
        DataAct::Regression {
            n: count_in(words[1], 100) as usize,
            f: count_in(words[2], 4) as usize,
        }
    } else if words[0] == "columns"@ {
        DataAct::Columns
    } else if words[0] == "head"@ {
        DataAct::Head { n: count_at(words, 1, 5) as usize }
    } else if words[0] == "split"@ && len >= 2 {
        DataAct::Split
    } else if words[0] == "features"@ {
        DataAct::Features
    } else if words[0] == "target"@ && len >= 2 {
        DataAct::Target
    } else {
        DataAct::Unknown
    }
}

/// What a command asks of the dataset.
pub fn read_data_act(args: &[Vec<char>]) -> (r: DataAct)
    ensures
        r == data_act(text::views(args@)),
{
    let len: usize = args.len();
    assert(text::views(args@).len() == len);
    if len == 0 {
        DataAct::Usage
    } else if word_is(args, 0, "csv") && len >= 2 {
        DataAct::Csv
    } else if word_is(args, 0, "tsv") && len >= 2 {
        DataAct::Tsv
    } else if word_is(args, 0, "jsonl") && len >= 2 {
        DataAct::Jsonl
    } else if word_is(args, 0, "hf") && len >= 4 {
        DataAct::Hub { rows: read_count_at(args, 3, 100) }
    } else if word_is(args, 0, "synthetic") && len >= 4 {
        DataAct::Synthetic {
            n: read_count_at(args, 1, 100),
            f: read_count_at(args, 2, 4),
            c: read_count_at(args, 3, 3),
        }
    } else if word_is(args, 0, "regression") && len >= 3 {
        DataAct::Regression { n: read_count_at(args, 1, 100), f: read_count_at(args, 2, 4) }
    } else if word_is(args, 0, "columns") {
        DataAct::Columns
    } else if word_is(args, 0, "head") {
        DataAct::Head { n: read_count_at(args, 1, 5) }
    } else if word_is(args, 0, "split") && len >= 2 {
        DataAct::Split
    } else if word_is(args, 0, "features") {
        DataAct::Features
    } else if word_is(args, 0, "target") && len >= 2 {
        DataAct::Target
    } else {
        DataAct::Unknown
    }
}

/// The answer to a command on the dataset: a text, or what is to be loaded.
pub enum DataReply {
    Text(String),
    LoadCsv(String),
    LoadTsv(String),
    LoadJsonl(String),
    LoadHub { notice: String, dataset: String, split: String, rows: usize },
}

/// What is said of a dataset.
pub open spec fn dataset_text<S>(d: Dataset<S>) -> Seq<char> {
    "Dataset (source: "@ + d.source@ + ")\n  rows: "@ + text::digits(d.num_rows as nat)
        + "\n  columns ("@ + text::digits(d.columns.names().len()) + "):\n"@ + text::joined(
        data::column_lines(d.columns, d.columns.names().len() as int),
        "\n"@,
    )
}

/// What a column is used for.
pub open spec fn column_mark<S>(s: Session<S>, name: Seq<char>) -> Seq<char> {
    if text::texts(s.feature_columns@).contains(name) {
        " [feature]"@
    } else if s.target_column matches Some(t) && t@ == name {
        " [target]"@
    } else {
        ""@
    }
}

/// What is said of one column.
pub open spec fn column_text<S>(s: Session<S>, d: Dataset<S>, name: Seq<char>) -> Seq<char> {
    "  "@ + name + ": "@ + (if d.cells()[name] is Float {
        "f32"@
    } else {
        "str"@
    }) + column_mark(s, name)
}

/// The lines on the columns, in the order of their names.
pub open spec fn columns_text<S>(s: Session<S>, d: Dataset<S>) -> Seq<Seq<char>> {
    let names = table::ordered(d.columns.names());
    Seq::new(names.len(), |i: int| column_text(s, d, names[i]))
}

/// The names of the first features.
pub open spec fn feature_names(f: int) -> Seq<Seq<char>> {
    Seq::new(f as nat, |j: int| data::feature_name(j))
}

/// A dataset with its features and its target was put in.
pub open spec fn has_made<S>(a: Session<S>, b: Session<S>, f: int, target: Seq<char>) -> bool {
    &&& b.model == a.model
    &&& b.model_input_dim == a.model_input_dim
    &&& b.model_output_dim == a.model_output_dim
    &&& b.split_ratio == a.split_ratio
    &&& b.dataset is Some
    &&& text::texts(b.feature_columns@) == feature_names(f)
    &&& b.target_column matches Some(t) && t@ == target
}

/// A random dataset for classification.
pub open spec fn is_random_classes<S: Real>(d: Dataset<S>, n: usize, f: usize, c: usize) -> bool {
    exists|draws: Seq<S>|
        #![trigger crate::random::are_units(draws)]
        crate::random::are_units(draws) && data::is_classification(d, n, f, c, draws)
}

/// A random dataset for regression.
pub open spec fn is_random_targets<S: Real>(d: Dataset<S>, n: usize, f: usize) -> bool {
    exists|draws: Seq<S>|
        #![trigger crate::random::are_units(draws)]
        crate::random::are_units(draws) && data::is_regression(d, n, f, draws)
}

/// The part that a word stands for, or eight tenths.
pub open spec fn part_in<S: Textual>(word: Seq<char>) -> S {
    match S::spec_read(word) {
        Some(ratio) => ratio,
        None => optim::ratio(8, 10),
    }
}

/// The session after a command on the dataset.
pub open spec fn data_changed<S: Textual>(
    act: DataAct,
    words: Seq<Seq<char>>,
    a: Session<S>,
    b: Session<S>,
) -> bool {
    match act {
        DataAct::Synthetic { n, f, c } => {
            &&& has_made(a, b, f as int, "label"@)
            &&& is_random_classes(b.dataset->0, n, f, c)
        },
        DataAct::Regression { n, f } => {
            &&& has_made(a, b, f as int, "target"@)
            &&& is_random_targets(b.dataset->0, n, f)
        },
        DataAct::Split => b == (Session { split_ratio: Some(part_in::<S>(words[1])), ..a }),
        DataAct::Features => {
            &&& text::texts(b.feature_columns@) == words.skip(1)
            &&& b == (Session { feature_columns: b.feature_columns, ..a })
        },
        DataAct::Target => {
            &&& b.target_column matches Some(t) && t@ == words[1]
            &&& b == (Session { target_column: b.target_column, ..a })
        },
        _ => b == a,
    }
}

pub open spec fn is_said(r: DataReply, t: Seq<char>) -> bool {
    r matches DataReply::Text(s) && s@ == t
}

/// The answer to a command on the dataset.
pub open spec fn is_data_reply<S: Textual>(
    r: DataReply,
    act: DataAct,
    words: Seq<Seq<char>>,
    a: Session<S>,
    b: Session<S>,
) -> bool {
    match act {
        DataAct::Usage => is_said(
            r,
            "Usage: data csv|tsv|jsonl|hf|synthetic|regression|columns|head|features|target"@,
        ),
        DataAct::Csv => r matches DataReply::LoadCsv(p) && p@ == words[1],
        DataAct::Tsv => r matches DataReply::LoadTsv(p) && p@ == words[1],
        DataAct::Jsonl => r matches DataReply::LoadJsonl(p) && p@ == words[1],
        DataAct::Hub { rows } => {
            &&& r matches DataReply::LoadHub { notice, dataset, split, rows: k }
            &&& dataset@ == words[1]
            &&& split@ == words[2]
            &&& k == rows
            &&& notice@ == "Loading from HuggingFace: "@ + words[1] + "/"@ + words[2] + " ("@
                + text::digits(rows as nat) + " rows)..."@
        },
        DataAct::Synthetic { n, f, c } => is_said(r, dataset_text(b.dataset->0)),
        DataAct::Regression { n, f } => is_said(r, dataset_text(b.dataset->0)),
        DataAct::Columns => match a.dataset {
            Some(d) => is_said(r, text::joined(columns_text(a, d), "\n"@)),
            None => is_said(r, "No dataset loaded."@),
        },
        DataAct::Head { n } => match a.dataset {
            Some(d) => exists|h: Dataset<S>|
                #[trigger] is_head(h, d, n) && is_said(r, dataset_text(h)),
            None => is_said(r, "No dataset loaded."@),
        },
        DataAct::Split => is_said(
            r,
            "Train/test split ratio: "@ + part_in::<S>(words[1]).spec_show(),
        ),
        DataAct::Features => is_said(r, "Feature columns: "@ + debug_list(words.skip(1))),
        DataAct::Target => is_said(r, "Target column: "@ + words[1]),
        DataAct::Unknown => is_said(
            r,
            "Unknown data command or missing arguments. Type 'help'."@,
        ),
    }
}

/// The first rows of a dataset.
pub open spec fn is_head<S: Real>(h: Dataset<S>, d: Dataset<S>, n: usize) -> bool {
    &&& h.source@ == d.source@
    &&& h.num_rows == rows_up_to(d, n as int)
    &&& h.cells() == data::part_of(d.cells(), 0, h.num_rows as int)
    &&& h.columns.names() == d.columns.names()
}

pub open spec fn rows_up_to<S>(d: Dataset<S>, n: int) -> int {
    if n < d.num_rows {
        n
    } else {
        d.num_rows as int
    }
}

/// What a command needs so that its dataset can be counted and its rows exist.
pub open spec fn data_ready<S: Real>(act: DataAct, s: Session<S>) -> bool {
    match act {
        DataAct::Synthetic { n, f, c } => (n > 0 ==> c > 0) && 2 * (n * f) <= usize::MAX,
        DataAct::Regression { n, f } => f < usize::MAX && f + n * (f + 1) <= usize::MAX,
        DataAct::Head { n } => s.dataset matches Some(d) ==> data::reaches(
            d.cells(),
            rows_up_to(d, n as int),
        ),
        _ => true,
    }
}

fn feature_list(f: usize) -> (r: Vec<String>)
    ensures
        text::texts(r@) == feature_names(f as int),
{
    let mut r: Vec<String> = Vec::new();
    for j in 0..f
        invariant
            r@.len() == j,
            forall|k: int| 0 <= k < j ==> (#[trigger] r@[k])@ == data::feature_name(k),
    {
        r.push(data::feature_text(j));
    }
    assert(text::texts(r@) =~= feature_names(f as int));
    r
}

/// Puts a dataset in, and says what it is.
pub fn put_dataset<S: Real>(session: &mut Session<S>, ds: Dataset<S>) -> (r: String)
    requires
        old(session).wf(),
        ds.wf(),
    ensures
        final(session).wf(),
        *final(session) == (Session { dataset: Some(ds), ..*old(session) }),
        r@ == dataset_text(ds),
{
    let t = ds.summary();
    session.dataset = Some(ds);
    t
}

fn is_feature(names: &Vec<String>, name: &[char]) -> (r: bool)
    ensures
        r == text::texts(names@).contains(name@),
{
    let n: usize = names.len();
    let ghost all = text::texts(names@);
    for i in 0..n
        invariant
            n == names@.len(),
            all == text::texts(names@),
            forall|k: int| 0 <= k < i ==> #[trigger] all[k] != name@,
    {
        let own = chars_of(names[i].as_str());
        assert(all[i as int] == own@);
        if text::same_chars(&own, name) {
            return true;
        }
    }
    false
}

fn column_chars<S: Real>(session: &Session<S>, ds: &Dataset<S>) -> (r: Vec<char>)
    requires
        ds.wf(),
    ensures
        r@ == text::joined(columns_text(*session, *ds), "\n"@),
{
    let names = ds.columns.sorted_names();
    let ghost sorted = table::ordered(ds.columns.names());
    let n: usize = names.len();
    let mut lines: Vec<Vec<char>> = Vec::new();
    assert(text::views(names@).len() == n);
    for i in 0..n
        invariant
            ds.wf(),
            n == names@.len(),
            sorted == table::ordered(ds.columns.names()),
            text::views(names@) == sorted,
            text::views(lines@) =~= columns_text(*session, *ds).take(i as int),
    {
        let key = string_of(&names[i]);
        proof {
            assert(text::views(names@)[i as int] == names@[i as int]@);
            table::lemma_ordered_has(ds.columns, i as int);
        }
        let mut t = chars_of("  ");
        push_chars(&mut t, &names[i]);
        push_text(&mut t, ": ");
        match ds.columns.get(key.as_str()) {
            Some(c) => {
                assert(ds.columns@[key@]@ == ds.cells()[key@]);
                if c.is_numeric() {
                    push_text(&mut t, "f32");
                } else {
                    push_text(&mut t, "str");
                }
            },
            None => {},
        }
        if is_feature(&session.feature_columns, &names[i]) {
            push_text(&mut t, " [feature]");
        } else {
            let marked = match &session.target_column {
                Some(target) => is_text(&names[i], target.as_str()),
                None => false,
            };
            if marked {
                push_text(&mut t, " [target]");
            } else {
                push_text(&mut t, "");
            }
        }
        let ghost had = text::views(lines@);
        proof {
            assert(t@ == columns_text(*session, *ds)[i as int]);
        }
        lines.push(t);
        assert(text::views(lines@) =~= had.push(t@));
    }
    assert(text::views(lines@) =~= columns_text(*session, *ds));
    join(&lines, "\n")
}

/// Carries out a command on the dataset, or says what is to be loaded.
pub fn handle_data<S: Textual>(args: &[Vec<char>], session: &mut Session<S>) -> (r: DataReply)
    requires
        old(session).wf(),
        data_ready(data_act(text::views(args@)), *old(session)),
    ensures
        final(session).wf(),
        data_changed(
            data_act(text::views(args@)),
            text::views(args@),
            *old(session),
            *final(session),
        ),
        is_data_reply(
            r,
            data_act(text::views(args@)),
            text::views(args@),
            *old(session),
            *final(session),
        ),
{
    let ghost w = text::views(args@);
    let len: usize = args.len();
    proof {
        assert(w.len() == len);
        assert forall|i: int| 0 <= i < len implies #[trigger] w[i] == args@[i]@ by {}
    }
    match read_data_act(args) {
        DataAct::Usage => DataReply::Text(
            owned("Usage: data csv|tsv|jsonl|hf|synthetic|regression|columns|head|features|target"),
        ),
        DataAct::Csv => DataReply::LoadCsv(string_of(&args[1])),
        DataAct::Tsv => DataReply::LoadTsv(string_of(&args[1])),
        DataAct::Jsonl => DataReply::LoadJsonl(string_of(&args[1])),
        DataAct::Hub { rows } => {
            let mut t = chars_of("Loading from HuggingFace: ");
            push_chars(&mut t, &args[1]);
            push_text(&mut t, "/");
            push_chars(&mut t, &args[2]);
            push_text(&mut t, " (");
            push_decimal(&mut t, rows as u64);
            push_text(&mut t, " rows)...");
            DataReply::LoadHub {
                notice: string_of(&t),
                dataset: string_of(&args[1]),
                split: string_of(&args[2]),
                rows,
            }
        },
        DataAct::Synthetic { n, f, c } => {
            let ds = make_classification(n, f, c);
            let t = put_dataset(session, ds);
            session.feature_columns = feature_list(f);
            session.target_column = Some(owned("label"));
            DataReply::Text(t)
        },
        DataAct::Regression { n, f } => {
            let ds = make_regression(n, f);
            let t = put_dataset(session, ds);
            session.feature_columns = feature_list(f);
            session.target_column = Some(owned("target"));
            DataReply::Text(t)
        },
        DataAct::Columns => match &session.dataset {
            Some(ds) => DataReply::Text(string_of(&column_chars(session, ds))),
            None => DataReply::Text(owned("No dataset loaded.")),
        },
        DataAct::Head { n } => match &session.dataset {
            Some(ds) => {
                let h = ds.head(n);
                let t = h.summary();
                assert(is_head(h, *ds, n));
                DataReply::Text(t)
            },
            None => DataReply::Text(owned("No dataset loaded.")),
        },
        DataAct::Split => {
            let ratio: S = match S::read(&args[1]) {
                Some(v) => v,
                None => fraction(8, 10),
            };
            session.split_ratio = Some(ratio);
            let mut t = chars_of("Train/test split ratio: ");
            push_chars(&mut t, &ratio.show());
            DataReply::Text(string_of(&t))
        },
        DataAct::Features => {
            let mut names: Vec<String> = Vec::new();
            for i in 1..len
                invariant
                    len == args@.len(),
                    names@.len() == i - 1,
                    forall|k: int| 0 <= k < i - 1 ==> (#[trigger] names@[k])@ == args@[k + 1]@,
            {
                names.push(string_of(&args[i]));
            }
            assert(text::texts(names@) =~= w.skip(1));
            session.feature_columns = names;
            let mut t = chars_of("Feature columns: ");
            push_text(&mut t, show_list(&session.feature_columns).as_str());
            DataReply::Text(string_of(&t))
        },
        DataAct::Target => {
            session.target_column = Some(string_of(&args[1]));
            let mut t = chars_of("Target column: ");
            push_chars(&mut t, &args[1]);
            DataReply::Text(string_of(&t))
        },
        DataAct::Unknown => DataReply::Text(
            owned("Unknown data command or missing arguments. Type 'help'."),
        ),
    }
}

// ---- Training

/// The numbers of the columns of numbers among some columns, row by row.
pub open spec fn column_value<S: Real>(
    cells: Map<Seq<char>, data::Cells<S>>,
    names: Seq<Seq<char>>,
    rows: usize,
) -> Value<S> {
    let numeric = data::numeric_names(cells, names);
    Value {
        data: tensor::matrix_data(
            data::cell_matrix(cells, numeric),
            rows as int,
            numeric.len() as int,
        ),
        shape: seq![rows, numeric.len() as usize],
    }
}

fn column_tensor<S: Real>(ds: &Dataset<S>, names: &[String]) -> (r: Tensor<S>)
    requires
        ds.wf(),
        ds.num_rows * names@.len() <= usize::MAX,
    ensures
        r.wf(),
        r@ == column_value(ds.cells(), text::texts(names@), ds.num_rows),
{
    let n: usize = names.len();
    let mut list: Vec<&str> = Vec::new();
    for i in 0..n
        invariant
            n == names@.len(),
            list@.len() == i,
            forall|k: int| 0 <= k < i ==> (#[trigger] list@[k])@ == names@[k]@,
    {
        list.push(names[i].as_str());
    }
    assert(text::str_texts(list@) =~= text::texts(names@));
    let t = ds.to_tensor(&list);
    proof {
        let numeric = data::numeric_names(ds.cells(), text::texts(names@));
        tensor::lemma_matrix_data(
            t.data@,
            data::cell_matrix(ds.cells(), numeric),
            ds.num_rows as int,
            numeric.len() as int,
        );
    }
    t
}

/// What a command to train comes to.
pub enum TrainPlan<S> {
    Refused(String),
    Ready { epochs: usize, lr: S, inputs: Tensor<S>, targets: Tensor<S> },
}

/// The rate that a word stands for, or one hundredth.
pub open spec fn rate_in<S: Textual>(words: Seq<Seq<char>>) -> S {
    if words.len() > 1 {
        match S::spec_read(words[1]) {
            Some(lr) => lr,
            None => optim::ratio(1, 100),
        }
    } else {
        optim::ratio(1, 100)
    }
}

/// How many rows are for training: all, or the part that was set.
pub open spec fn training_rows<S: Real>(s: Session<S>, d: Dataset<S>) -> int {
    match s.split_ratio {
        Some(ratio) => rows_up_to(d, data::split_row(d.num_rows, ratio)),
        None => d.num_rows as int,
    }
}

/// The columns as far as they are for training.
pub open spec fn training_cells<S: Real>(s: Session<S>, d: Dataset<S>) -> Map<
    Seq<char>,
    data::Cells<S>,
> {
    match s.split_ratio {
        Some(ratio) => data::part_of(d.cells(), 0, training_rows(s, d)),
        None => d.cells(),
    }
}

pub open spec fn is_refusal<S>(r: TrainPlan<S>, t: Seq<char>) -> bool {
    r matches TrainPlan::Refused(s) && s@ == t
}

pub open spec fn is_train_plan<S: Textual>(
    r: TrainPlan<S>,
    words: Seq<Seq<char>>,
    s: Session<S>,
) -> bool {
    match (s.model, s.dataset) {
        (Some(m), Some(d)) => match s.target_column {
            Some(t) if s.feature_columns@.len() > 0 => {
                &&& r matches TrainPlan::Ready { epochs, lr, inputs, targets }
                &&& epochs == count_at(words, 0, 10)
                &&& lr == rate_in::<S>(words)
                &&& inputs.wf()
                &&& targets.wf()
                &&& inputs@ == column_value(
                    training_cells(s, d),
                    text::texts(s.feature_columns@),
                    training_rows(s, d) as usize,
                )
                &&& targets@ == column_value(
                    training_cells(s, d),
                    seq![t@],
                    training_rows(s, d) as usize,
                )
            },
            _ => is_refusal(
                r,
                "Set feature and target columns first. Use 'data features ...' and 'data target ...'."@,
            ),
        },
        _ => is_refusal(
            r,
            "Need both a model and a dataset. Use 'model new' and 'data ...' first."@,
        ),
    }
}

/// What to train on, and how long, or why not.
pub fn handle_train<S: Textual>(args: &[Vec<char>], session: &Session<S>) -> (r: TrainPlan<S>)
    requires
        session.wf(),
        session.dataset matches Some(d) ==> d.num_rows * session.feature_columns@.len()
            <= usize::MAX,
        session.split_ratio is Some ==> (session.dataset matches Some(d) ==> data::reaches(
            d.cells(),
            training_rows(*session, d),
        )),
    ensures
        is_train_plan(r, text::views(args@), *session),
{
    let epochs: usize = read_count_at(args, 0, 10);
    let mut lr: S = fraction(1, 100);
    if args.len() > 1 {
        assert(text::views(args@)[1] == args@[1]@);
        match S::read(&args[1]) {
            Some(v) => {
                lr = v;
            },
            None => {},
        }
    }
    if session.model.is_none() {
        return TrainPlan::Refused(
            owned("Need both a model and a dataset. Use 'model new' and 'data ...' first."),
        );
    }
    match &session.dataset {
        Some(ds) => match &session.target_column {
            Some(t) => {
                if session.feature_columns.len() == 0 {
                    return TrainPlan::Refused(
                        owned(
                            "Set feature and target columns first. Use 'data features ...' and 'data target ...'.",
                        ),
                    );
                }
                let one: Vec<String> = vec![owned(t.as_str())];
                let ghost width = session.feature_columns@.len() as int;
                assert(text::texts(one@) =~= seq![t@]);
                match session.split_ratio {
                    Some(ratio) => {
                        let part = ds.head(split_at(ds.num_rows, ratio));
                        proof {
                            let rows = part.num_rows as int;
                            assert(rows * 1 == rows) by (nonlinear_arith);
                            assert(rows * width <= ds.num_rows * width) by (nonlinear_arith)
                                requires
                                    0 <= rows <= ds.num_rows,
                                    0 <= width,
                            ;
                        }
                        let inputs = column_tensor(&part, &session.feature_columns);
                        let targets = column_tensor(&part, &one);
                        TrainPlan::Ready { epochs, lr, inputs, targets }
                    },
                    None => {
                        assert(ds.num_rows * 1 == ds.num_rows) by (nonlinear_arith);
                        let inputs = column_tensor(ds, &session.feature_columns);
                        let targets = column_tensor(ds, &one);
                        TrainPlan::Ready { epochs, lr, inputs, targets }
                    },
                }
            },
            None => TrainPlan::Refused(
                owned(
                    "Set feature and target columns first. Use 'data features ...' and 'data target ...'.",
                ),
            ),
        },
        None => TrainPlan::Refused(
            owned("Need both a model and a dataset. Use 'model new' and 'data ...' first."),
        ),
    }
}

/// The squared errors of a model together, over the number of its inputs.
pub fn epoch_loss<S: Real>(
    model: &Sequential<Layer<S>>,
    inputs: &Tensor<S>,
    targets: &Tensor<S>,
) -> (r: S)
    requires
        model.wf(),
        inputs.wf(),
        targets.wf(),
        model.accepts(inputs@),
        tensor::zips(model.output(inputs@), targets@),
    ensures
        r == tensor::sum_of(squared_errors(model.output(inputs@), targets@).data).spec_over(
            S::spec_count(inputs@.data.len() as usize),
        ),
{
    let diff = model.forward(inputs).sub(targets);
    proof {
        tensor::lemma_zip_same_shape(Op::Mul, diff@, diff@);
    }
    let squared = diff.mul(&diff);
    squared.sum().data[0].over(S::count(inputs.len()))
}

/// A text with spaces before it, up to a width.
pub open spec fn right_aligned(s: Seq<char>, width: nat) -> Seq<char> {
    if s.len() < width {
        Seq::new((width - s.len()) as nat, |i: int| ' ') + s
    } else {
        s
    }
}

fn push_right(v: &mut Vec<char>, s: &[char], width: usize)
    ensures
        final(v)@ == old(v)@ + right_aligned(s@, width as nat),
{
    let n: usize = s.len();
    let ghost first = v@;
    let gap: usize = if n < width {
        width - n
    } else {
        0
    };
    for i in 0..gap
        invariant
            v@ =~= first + Seq::new(i as nat, |k: int| ' '),
    {
        v.push(' ');
    }
    push_chars(v, s);
    assert(v@ =~= first + right_aligned(s@, width as nat));
}

/// A line of fifty dashes.
pub open spec fn rule_text() -> Seq<char> {
    "  --------------------------------------------------"@
}

pub open spec fn train_head_text<S: Textual>(epochs: nat, lr: S) -> Seq<char> {
    "\n  Training: "@ + text::digits(epochs) + " epochs, lr="@ + lr.spec_show() + "\n"@
        + rule_text()
}

/// What is said before training.
pub fn train_head<S: Textual>(epochs: usize, lr: S) -> (r: String)
    ensures
        r@ == train_head_text(epochs as nat, lr),
{
    let mut t = chars_of("\n  Training: ");
    push_decimal(&mut t, epochs as u64);
    push_text(&mut t, " epochs, lr=");
    push_chars(&mut t, &lr.show());
    push_text(&mut t, "\n");
    push_text(&mut t, "  --------------------------------------------------");
    string_of(&t)
}

pub open spec fn epoch_text<S: Textual>(losses: Seq<S>) -> Seq<char> {
    "  Epoch "@ + right_aligned(text::digits(losses.len()), 3) + ": loss = "@ + right_aligned(
        losses.last().spec_show_places(4),
        10,
    ) + " "@ + spark_text(losses)
}

/// What is said after an epoch, given the losses of all epochs so far.
pub fn epoch_line<S: Textual>(losses: &[S]) -> (r: String)
    requires
        losses@.len() > 0,
    ensures
        r@ == epoch_text(losses@),
{
    let n: usize = losses.len();
    let mut t = chars_of("  Epoch ");
    push_right(&mut t, &chars_of(text::decimal(n as u64).as_str()), 3);
    push_text(&mut t, ": loss = ");
    push_right(&mut t, &losses[n - 1].show_places(4), 10);
    push_text(&mut t, " ");
    push_text(&mut t, sparkline(losses).as_str());
    string_of(&t)
}

pub open spec fn train_end_text<S: Textual>(losses: Seq<S>) -> Seq<char> {
    rule_text() + "\n  Training complete. Final loss: "@ + (if losses.len() > 0 {
        losses.last()
    } else {
        S::spec_zero()
    }).spec_show_places(4) + "\n"@
}

/// What is said after training.
pub fn train_end<S: Textual>(losses: &[S]) -> (r: String)
    ensures
        r@ == train_end_text(losses@),
{
    let n: usize = losses.len();
    let last = if n > 0 {
        losses[n - 1]
    } else {
        S::zero()
    };
    let mut t = chars_of("  --------------------------------------------------");
    push_text(&mut t, "\n  Training complete. Final loss: ");
    push_chars(&mut t, &last.show_places(4));
    push_text(&mut t, "\n");
    string_of(&t)
}

// ---- Prediction

/// What a command to predict comes to.
pub enum PredictReply<S> {
    Refused(String),
    Row { row: usize, values: Vec<S> },
}

/// The inputs up to a row.
pub open spec fn predict_input<S: Real>(s: Session<S>, d: Dataset<S>, row: int) -> Value<S> {
    let rows = rows_up_to(d, row + 1);
    column_value(
        data::part_of(d.cells(), 0, rows),
        text::texts(s.feature_columns@),
        rows as usize,
    )
}

/// A row of what came out, as far as there is one.
pub open spec fn output_row<S>(out: Value<S>, row: int) -> Seq<S> {
    let w = out.shape.last() as int;
    let len = out.data.len() as int;
    if row * w >= len {
        Seq::empty()
    } else if row * w + w >= len {
        out.data.skip(row * w)
    } else {
        out.data.subrange(row * w, row * w + w)
    }
}

/// The model can be applied to the inputs up to a row.
pub open spec fn predictable<S: Real>(s: Session<S>, row: int) -> bool {
    match (s.model, s.dataset) {
        (Some(m), Some(d)) => {
            let x = predict_input(s, d, row);
            &&& row < usize::MAX
            &&& data::reaches(d.cells(), rows_up_to(d, row + 1))
            &&& rows_up_to(d, row + 1) * s.feature_columns@.len() <= usize::MAX
            &&& m.accepts(x)
            &&& m.output(x).shape.len() > 0
            &&& row * m.output(x).shape.last() + m.output(x).shape.last() <= usize::MAX
        },
        _ => true,
    }
}

/// What the model makes of one row of the dataset.
pub fn handle_predict<S: Real>(args: &[Vec<char>], session: &Session<S>) -> (r: PredictReply<S>)
    requires
        session.wf(),
        predictable(*session, count_at(text::views(args@), 0, 0) as int),
    ensures
        ({
            let k = count_at(text::views(args@), 0, 0);
            match (session.model, session.dataset) {
                (Some(m), Some(d)) => r matches PredictReply::Row { row, values } && row == k
                    && values@ == output_row(m.output(predict_input(*session, d, k as int)), k as int),
                _ => r matches PredictReply::Refused(t) && t@
                    == "Need both a model and a dataset."@,
            }
        }),
{
    let row: usize = read_count_at(args, 0, 0);
    match (&session.model, &session.dataset) {
        (Some(model), Some(ds)) => {
            let head = ds.head(row + 1);
            let inputs = column_tensor(&head, &session.feature_columns);
            let out = model.forward(&inputs);
            let w: usize = out.shape[out.shape.len() - 1];
            let len: usize = out.data.len();
            let from: usize = row * w;
            let to: usize = from + w;
            let values: Vec<S> = if from >= len {
                Vec::new()
            } else if to >= len {
                tensor::copy_slice(vstd::slice::slice_subrange(&out.data, from, len))
            } else {
                tensor::copy_slice(vstd::slice::slice_subrange(&out.data, from, to))
            };
            assert(values@ =~= output_row(out@, row as int));
            PredictReply::Row { row, values }
        },
        _ => PredictReply::Refused(owned("Need both a model and a dataset.")),
    }
}

// ---- The state of the session

pub open spec fn loaded_text(is_there: bool) -> Seq<char> {
    if is_there {
        "loaded"@
    } else {
        "none"@
    }
}

pub open spec fn info_text<S>(s: Session<S>) -> Seq<char> {
    "\n  Session state:\n    Model: "@ + loaded_text(s.model is Some) + "\n    Dataset: "@
        + loaded_text(s.dataset is Some) + (if s.feature_columns@.len() > 0 {
        "\n    Features: "@ + debug_list(text::texts(s.feature_columns@))
    } else {
        ""@
    }) + (match s.target_column {
        Some(t) => "\n    Target: "@ + t@,
        None => ""@,
    }) + "\n"@
}

fn push_loaded(v: &mut Vec<char>, is_there: bool)
    ensures
        final(v)@ == old(v)@ + loaded_text(is_there),
{
    if is_there {
        push_text(v, "loaded");
    } else {
        push_text(v, "none");
    }
}

/// What the session has come to.
pub fn handle_info<S>(session: &Session<S>) -> (r: String)
    ensures
        r@ == info_text(*session),
{
    let mut t = chars_of("\n  Session state:\n    Model: ");
    push_loaded(&mut t, session.model.is_some());
    push_text(&mut t, "\n    Dataset: ");
    push_loaded(&mut t, session.dataset.is_some());
    let ghost a = t@;
    let mut features: Vec<char> = Vec::new();
    if session.feature_columns.len() > 0 {
        features = chars_of("\n    Features: ");
        push_text(&mut features, show_list(&session.feature_columns).as_str());
    } else {
        features = chars_of("");
    }
    push_chars(&mut t, &features);
    let target = match &session.target_column {
        Some(name) => {
            let mut own = chars_of("\n    Target: ");
            push_text(&mut own, name.as_str());
            own
        },
        None => chars_of(""),
    };
    push_chars(&mut t, &target);
    push_text(&mut t, "\n");
    string_of(&t)
}

// ---- Sparklines

/// The blocks from the lowest to the highest.
pub open spec fn block(i: int) -> char {
    if i <= 0 {
        '▁'
    } else if i == 1 {
        '▂'
    } else if i == 2 {
        '▃'
    } else if i == 3 {
        '▄'
    } else if i == 4 {
        '▅'
    } else if i == 5 {
        '▆'
    } else if i == 6 {
        '▇'
    } else {
        '█'
    }
}

fn block_char(i: i64) -> (r: char)
    ensures
        r == block(i as int),
{
    if i <= 0 {
        '▁'
    } else if i == 1 {
        '▂'
    } else if i == 2 {
        '▃'
    } else if i == 3 {
        '▄'
    } else if i == 4 {
        '▅'
    } else if i == 5 {
        '▆'
    } else if i == 6 {
        '▇'
    } else {
        '█'
    }
}

/// How far the numbers are apart.
pub open spec fn span_of<S: Real>(v: Seq<S>) -> S {
    let n = v.len() as int;
    grpo::greatest(v, n).spec_minus(grpo::least(v, n))
}

/// A trillionth.
pub open spec fn trillionth<S: Real>() -> S {
    optim::ratio::<S>(1, 1_000_000).spec_over(S::spec_count(1_000_000))
}

/// A block for each number, the higher the greater it is; full blocks where all are the same.
pub open spec fn spark_text<S: Real>(v: Seq<S>) -> Seq<char> {
    let low = grpo::least(v, v.len() as int);
    Seq::new(
        v.len(),
        |i: int|
            if span_of(v).spec_below(trillionth()) {
                block(7)
            } else {
                block(
                    v[i].spec_minus(low).spec_over(span_of(v)).spec_times(
                        S::spec_count(7),
                    ).spec_round().spec_whole() as int,
                )
            },
    )
}

/// A block for each number.
pub fn sparkline<S: Real>(values: &[S]) -> (r: String)
    ensures
        r@ == spark_text(values@),
{
    let n: usize = values.len();
    let mut low = S::highest();
    let mut high = S::lowest();
    for i in 0..n
        invariant
            n == values@.len(),
            low == grpo::least(values@, i as int),
            high == grpo::greatest(values@, i as int),
    {
        low = low.smaller(values[i]);
        high = high.larger(values[i]);
    }
    let range = high.minus(low);
    let tiny: S = fraction::<S>(1, 1_000_000).over(S::count(1_000_000));
    let flat = range.below(tiny);
    let mut out: Vec<char> = Vec::new();
    for i in 0..n
        invariant
            n == values@.len(),
            low == grpo::least(values@, n as int),
            range == span_of(values@),
            flat == span_of(values@).spec_below(trillionth()),
            out@ =~= spark_text(values@).take(i as int),
    {
        let c = if flat {
            block_char(7)
        } else {
            let place: i64 = values[i].minus(low).over(range).times(S::count(7)).round().whole();
            block_char(place)
        };
        assert(c == spark_text(values@)[i as int]);
        out.push(c);
    }
    assert(out@ =~= spark_text(values@));
    string_of(&out)
}

// ---- Commands in one line

/// What a command in one line does to the session.
pub enum LineAct {
    Keep,
    Random,
    Fresh,
    AddLinear { in_f: usize, out_f: usize },
    Synthetic { n: usize, f: usize, c: usize },
    Info,
}

pub open spec fn line_act(w: Seq<Seq<char>>, has_model: bool) -> LineAct {
    let len = w.len();
    if says(w, 0, "tensor"@) {
        if len >= 3 && w[1] == "randn"@ {
            LineAct::Random
        } else {
            LineAct::Keep
        }
    } else if says(w, 0, "model"@) {
        if says(w, 1, "new"@) {
            LineAct::Fresh
        } else if len >= 4 && w[1] == "add"@ && w[2] == "linear"@ && has_model {
            LineAct::AddLinear {
                in_f: count_in(w[3], 0) as usize,
                out_f: count_at(w, 4, 0) as usize,
            }
        } else {
            LineAct::Keep
        }
    } else if says(w, 0, "data"@) {
        if len >= 4 && w[1] == "synthetic"@ {
            LineAct::Synthetic {
                n: count_in(w[2], 100) as usize,
                f: count_in(w[3], 4) as usize,
                c: count_at(w, 4, 3) as usize,
            }
        } else {
            LineAct::Keep
        }
    } else if says(w, 0, "info"@) {
        LineAct::Info
    } else {
        LineAct::Keep
    }
}

/// What a command in one line asks for.
pub fn read_line_act(args: &[Vec<char>], has_model: bool) -> (r: LineAct)
    ensures
        r == line_act(text::views(args@), has_model),
{
    let len: usize = args.len();
    assert(text::views(args@).len() == len);
    if word_is(args, 0, "tensor") {
        if len >= 3 && word_is(args, 1, "randn") {
            LineAct::Random
        } else {
            LineAct::Keep
        }
    } else if word_is(args, 0, "model") {
        if word_is(args, 1, "new") {
            LineAct::Fresh
        } else if len >= 4 && word_is(args, 1, "add") && word_is(args, 2, "linear") && has_model {
            LineAct::AddLinear {
                in_f: read_count_at(args, 3, 0),
                out_f: read_count_at(args, 4, 0),
            }
        } else {
            LineAct::Keep
        }
    } else if word_is(args, 0, "data") {
        if len >= 4 && word_is(args, 1, "synthetic") {
            LineAct::Synthetic {
                n: read_count_at(args, 2, 100),
                f: read_count_at(args, 3, 4),
                c: read_count_at(args, 4, 3),
            }
        } else {
            LineAct::Keep
        }
    } else if word_is(args, 0, "info") {
        LineAct::Info
    } else {
        LineAct::Keep
    }
}

/// The answer to a command in one line: a text, or a random tensor of a shape.
pub enum Reply {
    Text(String),
    RandomTensor(Vec<usize>),
}

pub open spec fn replies(r: Reply, t: Seq<char>) -> bool {
    r matches Reply::Text(s) && s@ == t
}

pub open spec fn yes_no(b: bool) -> Seq<char> {
    if b {
        "true"@
    } else {
        "false"@
    }
}

/// What a command in one line needs: a second width for a linear layer and weights for it, and
/// a dataset that can be counted.
pub open spec fn line_ready(w: Seq<Seq<char>>, act: LineAct, left: int) -> bool {
    match act {
        LineAct::AddLinear { in_f, out_f } => w.len() > 4 && out_f * in_f <= left,
        LineAct::Synthetic { n, f, c } => (n > 0 ==> c > 0) && 2 * (n * f) <= usize::MAX,
        _ => true,
    }
}

pub open spec fn line_done<S: Real>(
    r: Reply,
    w: Seq<Seq<char>>,
    act: LineAct,
    a: Session<S>,
    b: Session<S>,
    draws: Seq<S>,
    at: int,
) -> bool {
    match act {
        LineAct::Keep => b == a && replies(r, ""@),
        LineAct::Random => b == a && (r matches Reply::RandomTensor(d) && d@ == counts_from(
            w,
            2,
            w.len() as int,
        )),
        LineAct::Fresh => {
            &&& same_but_model(a, b)
            &&& b.model matches Some(m) && m.layers@.len() == 0
            &&& replies(r, "New model created"@)
        },
        LineAct::AddLinear { in_f, out_f } => {
            &&& has_added_linear(a, b, in_f, out_f, draws, at)
            &&& replies(r, linear_text(in_f as nat, out_f as nat))
        },
        LineAct::Synthetic { n, f, c } => {
            &&& has_made(a, b, f as int, "label"@)
            &&& is_random_classes(b.dataset->0, n, f, c)
            &&& replies(r, dataset_text(b.dataset->0))
        },
        LineAct::Info => b == a && replies(
            r,
            "model: "@ + yes_no(a.model is Some) + ", dataset: "@ + yes_no(a.dataset is Some),
        ),
    }
}

fn push_yes_no(v: &mut Vec<char>, b: bool)
    ensures
        final(v)@ == old(v)@ + yes_no(b),
{
    if b {
        push_text(v, "true");
    } else {
        push_text(v, "false");
    }
}

/// Carries out a command in one line.
pub fn process_command<S: Real>(
    session: &mut Session<S>,
    command: &str,
    draws: &mut Draws<S>,
) -> (r: Reply)
    requires
        old(session).wf(),
        old(draws).wf(),
        line_ready(
            text::words_of(command@),
            line_act(text::words_of(command@), old(session).model is Some),
            old(draws).left(),
        ),
    ensures
        final(session).wf(),
        line_done(
            r,
            text::words_of(command@),
            line_act(text::words_of(command@), old(session).model is Some),
            *old(session),
            *final(session),
            old(draws).values@,
            old(draws).next as int,
        ),
{
    let args = words(&chars_of(command));
    assert(text::views(args@) == text::words_of(command@));
    match read_line_act(&args, session.model.is_some()) {
        LineAct::Keep => Reply::Text(owned("")),
        LineAct::Random => Reply::RandomTensor(read_counts(&args, 2)),
        LineAct::Fresh => {
            session.model = Some(Sequential::new());
            Reply::Text(owned("New model created"))
        },
        LineAct::AddLinear { in_f, out_f } => {
            add_linear(session, in_f, out_f, draws);
            Reply::Text(string_of(&linear_chars(in_f, out_f)))
        },
        LineAct::Synthetic { n, f, c } => {
            let ds = make_classification(n, f, c);
            let t = put_dataset(session, ds);
            session.feature_columns = feature_list(f);
            session.target_column = Some(owned("label"));
            Reply::Text(t)
        },
        LineAct::Info => {
            let mut t = chars_of("model: ");
            push_yes_no(&mut t, session.model.is_some());
            push_text(&mut t, ", dataset: ");
            push_yes_no(&mut t, session.dataset.is_some());
            Reply::Text(string_of(&t))
        },
    }
}

} // verus!
