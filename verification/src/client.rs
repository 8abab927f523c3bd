//! The calculator clients: checking what the user types, asking for the two
//! numbers and the operator in turn, and composing the request; and the
//! choice between running the server or the client.
use crate::calculator::{request_words, spec_calculate};
use crate::http::{latin1, latin1_chars};
use crate::number::{
    is_digit,
    lemma_integer_text,
    lemma_parse_decimal_roundtrip,
    spec_decimal,
    parse_i32,
    parse_u32,
    spec_parse_i32,
    spec_parse_u32,
};
use crate::text::{
    chars_of,
    lemma_find_char,
    lemma_find_char_absent,
    lemma_split_join,
    lemma_trim_unchanged,
    lowercase_of,
    same_chars,
    spec_is_whitespace,
    spec_split,
    spec_trim,
    string_of,
    to_lowercase,
    trim,
};
use vstd::prelude::*;

verus! {

/// The two calculator clients. `Tcp` is the stream client: it reads numbers
/// as `u32`, accepts every operator and never accepts a number line. `Udp`
/// is the datagram client: it reads numbers as `i32` and accepts only the
/// listed operators.
#[derive(Debug, Clone, Copy, PartialEq, Eq)]
pub enum Flavor {
    Tcp,
    Udp,
}

/// Why a line of input is refused.
#[derive(Debug, Clone, Copy, PartialEq, Eq)]
pub enum InputError {
    /// No line could be read, or the client takes no free input here.
    InvalidInput,
    /// The line is not one of the offered choices.
    NotInList,
}

impl InputError {
    /// The text of this error.
    pub open spec fn spec_message(self) -> Seq<char> {
        match self {
            InputError::InvalidInput => "Invalid input"@,
            InputError::NotInList => "Input is not in the valid list"@,
        }
    }

    /// The text of this error.
    pub fn message(&self) -> (r: String)
        ensures
            r@ == self.spec_message(),
    {
        match self {
            InputError::InvalidInput => String::from_str("Invalid input"),
            InputError::NotInList => String::from_str("Input is not in the valid list"),
        }
    }
}

/// A typed line as the clients read it: trimmed and lowercased.
pub open spec fn spec_normalize(line: Seq<char>) -> Seq<char> {
    lowercase_of(spec_trim(line))
}

/// `line` trimmed and lowercased.
pub fn normalize_input(line: &str) -> (r: String)
    ensures
        r@ == spec_normalize(line@),
{
    let t = string_of(&trim(&chars_of(line)));
    to_lowercase(t.as_str())
}

/// The texts of a list of choices.
pub open spec fn choice_texts(choices: Seq<&str>) -> Seq<Seq<char>> {
    choices.map_values(|c: &str| c@)
}

/// What a client makes of a trimmed, lowercased line `word`, given the
/// choices it offers (`None` for free input).
pub open spec fn spec_classify(flavor: Flavor, word: Seq<char>, choices: Option<Seq<Seq<char>>>) -> Result<
    Seq<char>,
    InputError,
> {
    match (flavor, choices) {
        (Flavor::Udp, None) => Ok(word),
        (Flavor::Udp, Some(c)) => if c.contains(word) {
            Ok(word)
        } else {
            Err(InputError::NotInList)
        },
        (Flavor::Tcp, None) => Err(InputError::InvalidInput),
        (Flavor::Tcp, Some(_)) => Ok(word),
    }
}

/// What a client makes of a line (`None` where reading failed), given the
/// choices it offers (`None` for free input).
pub open spec fn spec_valid_input(
    flavor: Flavor,
    line: Option<Seq<char>>,
    choices: Option<Seq<Seq<char>>>,
) -> Result<Seq<char>, InputError> {
    match line {
        None => Err(InputError::InvalidInput),
        Some(l) => spec_classify(flavor, spec_normalize(l), choices),
    }
}

/// Whether `w` is one of `choices`.
fn is_choice(w: &String, choices: &Vec<&str>) -> (r: bool)
    ensures
        r == choice_texts(choices@).contains(w@),
{
    let wc = chars_of(w.as_str());
    let mut i: usize = 0;
    while i < choices.len()
        invariant
            i <= choices.len(),
            wc@ == w@,
            forall|j: int| 0 <= j < i ==> choice_texts(choices@)[j] != w@,
        decreases choices.len() - i,
    {
        let c = chars_of(choices[i]);
        if same_chars(&c, &wc) {
            assert(choice_texts(choices@)[i as int] == w@);
            return true;
        }
        i = i + 1;
    }
    false
}

/// What a client makes of the trimmed, lowercased line `word`: the word
/// itself, or why it is refused.
pub fn classify_input(flavor: Flavor, word: String, choices: Option<&Vec<&str>>) -> (r: Result<
    String,
    InputError,
>)
    ensures
        match choices {
            Some(c) => spec_classify(flavor, word@, Some(choice_texts(c@))),
            None => spec_classify(flavor, word@, None),
        } == match r {
            Ok(s) => Ok::<Seq<char>, InputError>(s@),
            Err(e) => Err(e),
        },
{
    match (flavor, choices) {
        (Flavor::Udp, None) => Ok(word),
        (Flavor::Udp, Some(c)) => if is_choice(&word, c) {
            Ok(word)
        } else {
            Err(InputError::NotInList)
        },
        (Flavor::Tcp, None) => Err(InputError::InvalidInput),
        (Flavor::Tcp, Some(_)) => Ok(word),
    }
}

/// What a client makes of a line of input: the trimmed, lowercased line,
/// or why it is refused. `line` is `None` where reading failed.
pub fn get_valid_input(flavor: Flavor, line: Option<&str>, choices: Option<&Vec<&str>>) -> (r:
    Result<String, InputError>)
    ensures
        match (line, choices) {
            (Some(l), Some(c)) => spec_valid_input(flavor, Some(l@), Some(choice_texts(c@))),
            (Some(l), None) => spec_valid_input(flavor, Some(l@), None),
            (None, Some(c)) => spec_valid_input(flavor, None, Some(choice_texts(c@))),
            (None, None) => spec_valid_input(flavor, None, None),
        } == match r {
            Ok(s) => Ok::<Seq<char>, InputError>(s@),
            Err(e) => Err(e),
        },
{
    match line {
        None => Err(InputError::InvalidInput),
        Some(l) => classify_input(flavor, normalize_input(l), choices),
    }
}

/// Where a client stands in asking for a calculation.
pub enum Stage {
    /// Asking for the first number.
    First,
    /// Asking for the operator, after the first number.
    Operator { first: String },
    /// Asking for the second number, after the first number and the operator.
    Second { first: String, operator: String },
}

/// A stage, with the texts read so far.
pub enum StageView {
    First,
    Operator { first: Seq<char> },
    Second { first: Seq<char>, operator: Seq<char> },
}

impl View for Stage {
    type V = StageView;

    open spec fn view(&self) -> StageView {
        match self {
            Stage::First => StageView::First,
            Stage::Operator { first } => StageView::Operator { first: first@ },
            Stage::Second { first, operator } => StageView::Second {
                first: first@,
                operator: operator@,
            },
        }
    }
}

/// What a client does next.
pub enum Step {
    /// Print `output`, then read a line and go on from `stage`.
    Ask { stage: Stage, output: String },
    /// The calculation to send is complete.
    Done { calculation: String },
    /// Give up: reading failed where the client insists on a line.
    Abort { message: String },
}

/// A step, with its texts.
pub enum StepView {
    Ask { stage: StageView, output: Seq<char> },
    Done { calculation: Seq<char> },
    Abort { message: Seq<char> },
}

impl View for Step {
    type V = StepView;

    open spec fn view(&self) -> StepView {
        match self {
            Step::Ask { stage, output } => StepView::Ask { stage: stage@, output: output@ },
            Step::Done { calculation } => StepView::Done { calculation: calculation@ },
            Step::Abort { message } => StepView::Abort { message: message@ },
        }
    }
}

/// A prompt as the client prints it: the stream client leaves the cursor
/// on the line, the datagram client ends the line.
pub open spec fn prompt(flavor: Flavor, text: Seq<char>) -> Seq<char> {
    match flavor {
        Flavor::Tcp => text,
        Flavor::Udp => text + "\n"@,
    }
}

/// The operators that the clients offer.
pub open spec fn operator_choices() -> Seq<Seq<char>> {
    seq!["+"@, "-"@]
}

/// `text` is a number as the client reads numbers.
pub open spec fn is_number(flavor: Flavor, text: Seq<char>) -> bool {
    match flavor {
        Flavor::Tcp => spec_parse_u32(text) is Some,
        Flavor::Udp => spec_parse_i32(text) is Some,
    }
}

/// The request a client sends: the two numbers and the operator,
/// separated by single spaces.
pub open spec fn spec_compose(first: Seq<char>, operator: Seq<char>, second: Seq<char>) -> Seq<
    char,
> {
    first + " "@ + operator + " "@ + second
}

/// What a client does first: ask for the first number.
pub open spec fn spec_begin_calculation(flavor: Flavor) -> StepView {
    StepView::Ask { stage: StageView::First, output: prompt(flavor, "First number: "@) }
}

/// What a client does after reading `line` (`None` where reading failed)
/// at `stage`.
pub open spec fn spec_advance(flavor: Flavor, stage: StageView, line: Option<Seq<char>>) -> StepView {
    match stage {
        StageView::First => match spec_valid_input(flavor, line, None) {
            Ok(w) => StepView::Ask {
                stage: StageView::Operator { first: w },
                output: prompt(flavor, "Operator: [+ -] "@),
            },
            Err(e) => match flavor {
                Flavor::Tcp => StepView::Abort { message: "Recieved no input for first number"@ },
                Flavor::Udp => StepView::Ask {
                    stage: StageView::First,
                    output: "Recieved no input for first number, "@ + e.spec_message() + "\n"@
                        + prompt(flavor, "First number: "@),
                },
            },
        },
        StageView::Operator { first } => match spec_valid_input(
            flavor,
            line,
            Some(operator_choices()),
        ) {
            Ok(op) => StepView::Ask {
                stage: StageView::Second { first, operator: op },
                output: prompt(flavor, "Second number: "@),
            },
            Err(_) => StepView::Ask {
                stage: StageView::Operator { first },
                output: prompt(flavor, "Invalid operator, please try again: "@),
            },
        },
        StageView::Second { first, operator } => match spec_valid_input(flavor, line, None) {
            Err(_) => StepView::Abort { message: "Recieved no input for second number"@ },
            Ok(second) => if is_number(flavor, first) && is_number(flavor, second) {
                StepView::Done { calculation: spec_compose(first, operator, second) }
            } else {
                StepView::Ask {
                    stage: StageView::First,
                    output: match flavor {
                        Flavor::Tcp => prompt(flavor, "First number: "@),
                        Flavor::Udp => "Invalid input, please try again\n"@ + prompt(
                            flavor,
                            "First number: "@,
                        ),
                    },
                }
            },
        },
    }
}

/// A prompt as `flavor` prints it.
fn prompt_exec(flavor: Flavor, text: &str) -> (r: String)
    ensures
        r@ == prompt(flavor, text@),
{
    let mut r = String::from_str(text);
    match flavor {
        Flavor::Tcp => {},
        Flavor::Udp => r.append("\n"),
    }
    r
}

/// Whether `text` is a number as `flavor` reads numbers.
fn is_number_exec(flavor: Flavor, text: &String) -> (r: bool)
    ensures
        r == is_number(flavor, text@),
{
    let c = chars_of(text.as_str());
    match flavor {
        Flavor::Tcp => parse_u32(&c).is_some(),
        Flavor::Udp => parse_i32(&c).is_some(),
    }
}

/// The request for the numbers `first` and `second` and the `operator`.
pub fn compose_calculation(first: &str, operator: &str, second: &str) -> (r: String)
    ensures
        r@ == spec_compose(first@, operator@, second@),
{
    let mut r = String::from_str(first);
    r.append(" ");
    r.append(operator);
    r.append(" ");
    r.append(second);
    r
}

/// What a client does first.
pub fn begin_calculation(flavor: Flavor) -> (r: Step)
    ensures
        r@ == spec_begin_calculation(flavor),
{
    Step::Ask { stage: Stage::First, output: prompt_exec(flavor, "First number: ") }
}

/// What a client does after reading `line` (`None` where reading failed)
/// at `stage`.
pub fn advance(flavor: Flavor, stage: Stage, line: Option<&str>) -> (r: Step)
    ensures
        r@ == spec_advance(
            flavor,
            stage@,
            match line {
                Some(l) => Some(l@),
                None => None,
            },
        ),
{
    let ghost lv = match line {
        Some(l) => Some(l@),
        None => None::<Seq<char>>,
    };
    match stage {
        Stage::First => match get_valid_input(flavor, line, None) {
            Ok(w) => Step::Ask {
                stage: Stage::Operator { first: w },
                output: prompt_exec(flavor, "Operator: [+ -] "),
            },
            Err(e) => match flavor {
                Flavor::Tcp => Step::Abort {
                    message: String::from_str("Recieved no input for first number"),
                },
                Flavor::Udp => {
                    let mut out = String::from_str("Recieved no input for first number, ");
                    out.append(e.message().as_str());
                    out.append("\n");
                    out.append(prompt_exec(flavor, "First number: ").as_str());
                    Step::Ask { stage: Stage::First, output: out }
                },
            },
        },
        Stage::Operator { first } => {
            let choices = vec!["+", "-"];
            assert(choice_texts(choices@) == operator_choices());
            match get_valid_input(flavor, line, Some(&choices)) {
                Ok(op) => Step::Ask {
                    stage: Stage::Second { first, operator: op },
                    output: prompt_exec(flavor, "Second number: "),
                },
                Err(_) => Step::Ask {
                    stage: Stage::Operator { first },
                    output: prompt_exec(flavor, "Invalid operator, please try again: "),
                },
            }
        },
        Stage::Second { first, operator } => match get_valid_input(flavor, line, None) {
            Err(_) => Step::Abort {
                message: String::from_str("Recieved no input for second number"),
            },
            Ok(second) => {
                if is_number_exec(flavor, &first) && is_number_exec(flavor, &second) {
                    Step::Done {
                        calculation: compose_calculation(
                            first.as_str(),
                            operator.as_str(),
                            second.as_str(),
                        ),
                    }
                } else {
                    let output = match flavor {
                        Flavor::Tcp => prompt_exec(flavor, "First number: "),
                        Flavor::Udp => {
                            let mut out = String::from_str("Invalid input, please try again\n");
                            out.append(prompt_exec(flavor, "First number: ").as_str());
                            out
                        },
                    };
                    Step::Ask { stage: Stage::First, output }
                }
            },
        },
    }
}

/// The server's reply as a client reads it from its receive buffer: each
/// byte read as a character, trimmed.
pub open spec fn spec_reply_text(buffer: Seq<u8>) -> Seq<char> {
    spec_trim(latin1(buffer))
}

/// The server's reply, read from the client's receive buffer.
pub fn reply_text(buffer: &[u8]) -> (r: String)
    ensures
        r@ == spec_reply_text(buffer@),
{
    string_of(&trim(&latin1_chars(buffer)))
}

/// Text followed by spaces trims to the text, where the text ends in a
/// non-whitespace character.
proof fn lemma_trim_end_spaces(d: Seq<char>, tail: Seq<char>)
    requires
        d.len() > 0,
        !spec_is_whitespace(d.last()),
        forall|i: int| 0 <= i < tail.len() ==> tail[i] == ' ',
    ensures
        crate::text::spec_trim_end(d + tail) == d,
    decreases tail.len(),
{
    if tail.len() == 0 {
        assert(d + tail == d);
    } else {
        assert((d + tail).drop_last() == d + tail.drop_last());
        lemma_trim_end_spaces(d, tail.drop_last());
    }
}

/// The client reads back what the server sends: a receive buffer that
/// starts with the bytes of the decimal text of `n` and holds only spaces
/// after them reads as that text, and the text reads as `n`.
pub proof fn lemma_reply_read_back(n: i32, buffer: Seq<u8>)
    requires
        buffer.len() >= vstd::utf8::encode_utf8(spec_decimal(n as int)).len(),
        buffer.take(vstd::utf8::encode_utf8(spec_decimal(n as int)).len() as int)
            == vstd::utf8::encode_utf8(spec_decimal(n as int)),
        forall|i: int|
            vstd::utf8::encode_utf8(spec_decimal(n as int)).len() <= i < buffer.len() ==> buffer[i]
                == 32,
    ensures
        spec_reply_text(buffer) == spec_decimal(n as int),
        spec_parse_i32(spec_reply_text(buffer)) == Some(n),
{
    let d = spec_decimal(n as int);
    lemma_parse_decimal_roundtrip(n);
    lemma_integer_text(d, true);
    assert(vstd::utf8::is_ascii_chars(d)) by {
        assert forall|i: int| 0 <= i < d.len() implies '\0' <= #[trigger] d[i] <= '\u{7f}' by {
            assert(is_digit(d[i]) || d[i] == '+' || d[i] == '-');
        }
    }
    vstd::utf8::is_ascii_chars_encode_utf8(d);
    let e = vstd::utf8::encode_utf8(d);
    let l = latin1(buffer);
    let tail = l.skip(d.len() as int);
    assert forall|i: int| 0 <= i < d.len() implies l[i] == d[i] by {
        assert(buffer[i] == e[i]);
        assert(e[i] == d[i] as u8);
        assert((d[i] as u8) as char == d[i]);
    }
    assert(l == d + tail);
    assert forall|i: int| 0 <= i < tail.len() implies tail[i] == ' ' by {
        assert(buffer[d.len() + i] == 32);
    }
    assert(!spec_is_whitespace(d[0])) by {
        assert(is_digit(d[0]) || d[0] == '+' || d[0] == '-');
    }
    assert(!spec_is_whitespace(d.last())) by {
        assert(is_digit(d[d.len() - 1]) || d[d.len() - 1] == '+' || d[d.len() - 1] == '-');
    }
    assert(l[0] == d[0]);
    lemma_trim_end_spaces(d, tail);
}

/// The program's choice of role, from the line the user types.
#[derive(Debug, Clone, Copy, PartialEq, Eq)]
pub enum Service {
    Server,
    Client,
    Invalid,
}

/// The role that the trimmed, lowercased line `word` names: `server` or
/// `s` for the server, `client` or `c` for the client.
pub open spec fn spec_service_of(word: Seq<char>) -> Service {
    if word == "server"@ || word == "s"@ {
        Service::Server
    } else if word == "client"@ || word == "c"@ {
        Service::Client
    } else {
        Service::Invalid
    }
}

/// The role that the typed `line` selects, after trimming and lowercasing.
pub open spec fn spec_select_service(line: Seq<char>) -> Service {
    spec_service_of(spec_normalize(line))
}

/// The role that the trimmed, lowercased line `word` names.
pub fn service_of(word: &str) -> (r: Service)
    ensures
        r == spec_service_of(word@),
{
    let w = chars_of(word);
    if same_chars(&w, &chars_of("server")) || same_chars(&w, &chars_of("s")) {
        Service::Server
    } else if same_chars(&w, &chars_of("client")) || same_chars(&w, &chars_of("c")) {
        Service::Client
    } else {
        Service::Invalid
    }
}

/// The role that the typed `line` selects.
pub fn select_service(line: &str) -> (r: Service)
    ensures
        r == spec_select_service(line@),
{
    service_of(normalize_input(line).as_str())
}

/// A stage that the datagram client can reach holds one of the offered
/// operators.
pub open spec fn stage_well_formed(flavor: Flavor, stage: StageView) -> bool {
    match stage {
        StageView::Second { operator, .. } => flavor == Flavor::Udp ==> operator_choices().contains(
            operator,
        ),
        _ => true,
    }
}

/// Every step of a client keeps its stage well formed.
pub proof fn lemma_advance_keeps_stage_well_formed(
    flavor: Flavor,
    stage: StageView,
    line: Option<Seq<char>>,
)
    requires
        stage_well_formed(flavor, stage),
    ensures
        spec_advance(flavor, stage, line) matches StepView::Ask { stage: next, .. }
            ==> stage_well_formed(flavor, next),
{
}

/// The value of a calculation on two `i32` numbers: `None` where it
/// leaves the `i32` range.
pub open spec fn combine(a: i32, operator: Seq<char>, b: i32) -> Option<i32> {
    let v = if operator == "+"@ {
        a + b
    } else {
        a - b
    };
    if i32::MIN <= v <= i32::MAX {
        Some(v as i32)
    } else {
        None
    }
}

/// A number text holds neither whitespace nor a space.
proof fn lemma_number_has_no_space(t: Seq<char>)
    requires
        spec_parse_i32(t) is Some,
    ensures
        t.len() > 0,
        forall|i: int| 0 <= i < t.len() ==> !spec_is_whitespace(#[trigger] t[i]) && t[i] != ' ',
{
    lemma_integer_text(t, true);
    assert forall|i: int| 0 <= i < t.len() implies !spec_is_whitespace(#[trigger] t[i]) && t[i]
        != ' ' by {
        assert(is_digit(t[i]) || t[i] == '+' || t[i] == '-');
    }
}

/// The server reads a request that the datagram client composes from two
/// `i32` numbers and `+` or `-` as exactly that calculation: it answers
/// with the sum or difference, and aborts only where that leaves `i32`.
pub proof fn lemma_request_round_trip(first: Seq<char>, operator: Seq<char>, second: Seq<char>)
    requires
        spec_parse_i32(first) is Some,
        spec_parse_i32(second) is Some,
        operator_choices().contains(operator),
    ensures
        spec_calculate(spec_compose(first, operator, second)) == match combine(
            spec_parse_i32(first).unwrap(),
            operator,
            spec_parse_i32(second).unwrap(),
        ) {
            Some(v) => Some(Ok::<i32, crate::calculator::CalcError>(v)),
            None => None,
        },
{
    reveal_strlit(" ");
    reveal_strlit("+");
    reveal_strlit("-");
    let choices = operator_choices();
    let k = choose|k: int| 0 <= k < choices.len() && choices[k] == operator;
    assert(k == 0 || k == 1);
    assert(operator == seq!['+'] || operator == seq!['-']);
    lemma_number_has_no_space(first);
    lemma_number_has_no_space(second);
    let space = seq![' '];
    assert(" "@ == space);
    let s = spec_compose(first, operator, second);
    let rest1 = operator + space + second;
    assert(s == first + space + rest1);
    assert(s[0] == first[0]);
    assert(s.last() == second.last());
    lemma_trim_unchanged(s);
    assert(s[first.len() as int] == ' ');
    assert forall|j: int| 0 <= j < first.len() implies s[j] != ' ' by {
        assert(s[j] == first[j]);
    }
    lemma_find_char(s, ' ', first.len() as int);
    assert(s.take(first.len() as int) == first);
    assert(s.skip(first.len() + 1int) == rest1);
    assert(rest1[1] == ' ');
    lemma_find_char(rest1, ' ', 1);
    assert(rest1.take(1) == operator);
    assert(rest1.skip(2) == second);
    lemma_find_char_absent(second, ' ');
    assert(spec_split(second, space) == seq![second]);
    assert(spec_split(rest1, space) == seq![operator] + seq![second]);
    assert(spec_split(s, space) == seq![first] + (seq![operator] + seq![second]));
    let w = request_words(s);
    assert(w == seq![first, operator, second]);
    assert("+"@ =~= seq!['+']);
    assert("-"@ =~= seq!['-']);
}

/// The datagram client completes a request exactly when both numbers read
/// as `i32`: at the second number, where the first number and the typed
/// line (trimmed and lowercased) both read as `i32`, the request is the
/// first number, the operator and the second number, separated by single
/// spaces; where either does not, the client starts over with the first
/// number.
pub proof fn lemma_udp_second_number(first: Seq<char>, operator: Seq<char>, line: Seq<char>)
    ensures
        spec_parse_i32(first) is Some && spec_parse_i32(lowercase_of(spec_trim(line))) is Some
            ==> spec_advance(
            Flavor::Udp,
            StageView::Second { first, operator },
            Some(line),
        ) == (StepView::Done {
            calculation: first + " "@ + operator + " "@ + lowercase_of(spec_trim(line)),
        }),
        !(spec_parse_i32(first) is Some && spec_parse_i32(lowercase_of(spec_trim(line))) is Some)
            ==> spec_advance(
            Flavor::Udp,
            StageView::Second { first, operator },
            Some(line),
        ) matches StepView::Ask { stage: StageView::First, .. },
{
}

/// Words after a complete calculation are not ignored: the request made of
/// two numbers and an operator word, followed by a space and further words
/// (text that neither starts nor ends with whitespace), is refused as too
/// long, never computed.
pub proof fn lemma_extra_words_refused(
    first: Seq<char>,
    operator: Seq<char>,
    second: Seq<char>,
    extra: Seq<char>,
)
    requires
        spec_parse_i32(first) is Some,
        spec_parse_i32(second) is Some,
        forall|i: int| 0 <= i < operator.len() ==> operator[i] != ' ',
        extra.len() > 0,
        !spec_is_whitespace(extra[0]),
        !spec_is_whitespace(extra.last()),
    ensures
        spec_calculate(spec_compose(first, operator, second) + " "@ + extra) == Some(
            Err::<i32, crate::calculator::CalcError>(crate::calculator::CalcError::InvalidLength),
        ),
{
    reveal_strlit(" ");
    let sp = seq![' '];
    assert(" "@ == sp);
    lemma_number_has_no_space(first);
    lemma_number_has_no_space(second);
    let rest2 = second + sp + extra;
    let rest1 = operator + sp + rest2;
    let s = first + sp + rest1;
    assert(spec_compose(first, operator, second) + " "@ + extra == s);
    assert(s[0] == first[0]);
    assert(s.last() == extra.last());
    lemma_trim_unchanged(s);
    lemma_find_char_absent(first, ' ');
    lemma_find_char_absent(operator, ' ');
    lemma_find_char_absent(second, ' ');
    assert(spec_split(first, sp) == seq![first]);
    assert(spec_split(operator, sp) == seq![operator]);
    assert(spec_split(second, sp) == seq![second]);
    lemma_split_join(first, rest1, sp);
    lemma_split_join(operator, rest2, sp);
    lemma_split_join(second, extra, sp);
    let w = spec_split(s, sp);
    assert(w == seq![first] + (seq![operator] + (seq![second] + spec_split(extra, sp))));
    assert(w.len() > 3);
    assert(w[0] == first);
    assert(w[2] == second);
    crate::calculator::lemma_more_than_three_words_refused(s);
}

/// Every request that the datagram client completes from a well-formed
/// stage is one that the server computes: never an error answer, and an
/// abort only where the result leaves `i32`.
pub proof fn lemma_completed_requests_are_computed(stage: StageView, line: Option<Seq<char>>)
    requires
        stage_well_formed(Flavor::Udp, stage),
        spec_advance(Flavor::Udp, stage, line) is Done,
    ensures
        spec_advance(Flavor::Udp, stage, line) matches StepView::Done { calculation } && (
        spec_calculate(calculation) is None || spec_calculate(calculation) matches Some(Ok(_))),
{
    match stage {
        StageView::Second { first, operator } => {
            let second = spec_valid_input(Flavor::Udp, line, None)->Ok_0;
            lemma_request_round_trip(first, operator, second);
        },
        _ => {},
    }
}

} // verus!
