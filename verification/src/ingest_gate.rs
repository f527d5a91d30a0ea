//! A gate in front of adding memories: a judge scores how likely a text states a durable fact,
//! and an add is dropped only when every text of it scores below a threshold.
//!
//! The ingest gate fails open: where a judgment could not be had, the memory is kept.

use vstd::prelude::*;
use vstd::string::*;

use crate::json;
use crate::json::{Json, JsonNumber};
use crate::score;
use crate::score::Score;
use crate::text;

verus! {

/// Where judgments are asked for unless another place is configured.
pub const DEFAULT_URL: &'static str = "https://openrouter.ai/api/v1/systemone";

/// The judge that is asked unless another one is configured.
pub const DEFAULT_MODEL: &'static str = "typesafe/jev-1.13";

/// The bits of the threshold `0.10`, which holds unless another one is configured.
pub const DEFAULT_THRESHOLD_BITS: u64 = 0x3fb9_9999_9999_999a;

/// The longest text sent for judgment, in characters; the start of a memory carries its point.
pub const MAX_JUDGED_CHARS: usize = 6000;

/// Text parts larger than this are documents, not memory facts: they are never gated.
pub const MAX_GATED_BYTES: u64 = 65536;

/// How many characters of a text the log shows.
pub const PREVIEW_CHARS: usize = 120;

/// What the ingest gate does.
#[derive(Debug, Clone, Copy, PartialEq, Eq, Structural)]
pub enum GateMode {
    /// Nothing is judged.
    Off,
    /// Texts are stored as usual and judged for the log.
    Shadow,
    /// Texts are judged before they are stored.
    Enforce,
}

/// The mode that a setting asks for, whatever its case and the white space around it; anything
/// unknown, and no setting, means off.
pub open spec fn mode_named(raw: Option<Seq<char>>) -> GateMode {
    match raw {
        Some(s) => {
            let name = text::ascii_lowered(text::trimmed(s));
            if name == "shadow"@ {
                GateMode::Shadow
            } else if name == "enforce"@ {
                GateMode::Enforce
            } else {
                GateMode::Off
            }
        },
        None => GateMode::Off,
    }
}

/// The two modes have different names.
proof fn lemma_shadow_is_not_enforce()
    ensures
        "shadow"@ != "enforce"@,
{
    reveal_strlit("shadow");
    reveal_strlit("enforce");
    assert("shadow"@.len() == 6 && "enforce"@.len() == 7);
}

/// A setting asks for shadow mode or for enforcing exactly if, lowered and without the white
/// space at its ends, it is the mode's name; every other setting, and none, means off.
pub proof fn lemma_modes_by_name(raw: Option<Seq<char>>)
    ensures
        mode_named(raw) == GateMode::Shadow <==> raw is Some && text::ascii_lowered(
            text::trimmed(raw->Some_0),
        ) == "shadow"@,
        mode_named(raw) == GateMode::Enforce <==> raw is Some && text::ascii_lowered(
            text::trimmed(raw->Some_0),
        ) == "enforce"@,
{
    lemma_shadow_is_not_enforce();
}

/// The mode that a setting asks for.
pub fn parse_mode(raw: Option<&str>) -> (mode: GateMode)
    ensures
        mode == mode_named(text::text_of(raw)),
        mode == GateMode::Shadow <==> raw is Some && text::ascii_lowered(
            text::trimmed(raw->Some_0@),
        ) == "shadow"@,
        mode == GateMode::Enforce <==> raw is Some && text::ascii_lowered(
            text::trimmed(raw->Some_0@),
        ) == "enforce"@,
{
    proof {
        lemma_shadow_is_not_enforce();
    }
    match raw {
        Some(s) => {
            let name = text::to_ascii_lowercase(text::trim(s));
            if text::same_text(name.as_str(), "shadow") {
                GateMode::Shadow
            } else if text::same_text(name.as_str(), "enforce") {
                GateMode::Enforce
            } else {
                GateMode::Off
            }
        },
        None => GateMode::Off,
    }
}

/// The threshold in force: the configured one where it reads as a number between zero and
/// one, else the default.
pub fn threshold(configured: Option<Score>) -> (limit: Score)
    ensures
        limit == match configured {
            Some(t) => if t.in_unit() {
                t
            } else {
                Score { bits: DEFAULT_THRESHOLD_BITS }
            },
            None => Score { bits: DEFAULT_THRESHOLD_BITS },
        },
        limit.in_unit(),
        configured matches Some(t) ==> (t.bits <= 0x3ff0_0000_0000_0000 || t.bits
            == 0x8000_0000_0000_0000 ==> limit.bits == t.bits),
        (configured matches Some(t) ==> 0x3ff0_0000_0000_0000 < t.bits && t.bits
            != 0x8000_0000_0000_0000) ==> limit.bits == 0x3fb9_9999_9999_999a,
{
    match configured {
        Some(t) => if t.is_in_unit() {
            t
        } else {
            Score { bits: DEFAULT_THRESHOLD_BITS }
        },
        None => Score { bits: DEFAULT_THRESHOLD_BITS },
    }
}

/// Whether an add is dropped: it has texts, and each of them was judged and scored below the
/// threshold.
pub open spec fn drops(scores: Seq<Option<Score>>, threshold: Score) -> bool {
    &&& scores.len() > 0
    &&& forall|i: int|
        0 <= i < scores.len() ==> (#[trigger] scores[i]) is Some && scores[i]->Some_0.less(
            threshold,
        )
}

/// Whether an add is dropped: only when there was at least one judged text and every judged
/// text scored below the threshold. A text whose judgment failed keeps the add.
pub fn should_drop(scores: &[Option<Score>], threshold: Score) -> (drop: bool)
    ensures
        drop == drops(scores@, threshold),
        drop <==> scores@.len() > 0 && forall|i: int|
            0 <= i < scores@.len() ==> (#[trigger] scores@[i] matches Some(p) && p.less(threshold)),
{
    if scores.len() == 0 {
        return false;
    }
    let mut i: usize = 0;
    while i < scores.len()
        invariant
            i <= scores@.len(),
            forall|j: int|
                0 <= j < i ==> (#[trigger] scores@[j]) is Some && scores@[j]->Some_0.less(
                    threshold,
                ),
        decreases scores@.len() - i,
    {
        let below = match &scores[i] {
            Some(p) => p.is_below(&threshold),
            None => false,
        };
        if !below {
            assert(!(scores@[i as int] is Some && scores@[i as int]->Some_0.less(threshold)));
            return false;
        }
        i = i + 1;
    }
    true
}

/// The ingest gate fails open: an add is kept when it has no text, when the judgment of a text
/// failed, when a text scored at the threshold or above it, and when the threshold is no
/// number.
pub proof fn lemma_gate_fails_open(scores: Seq<Option<Score>>, threshold: Score, i: int)
    ensures
        scores.len() == 0 ==> !drops(scores, threshold),
        0 <= i < scores.len() && scores[i] is None ==> !drops(scores, threshold),
        0 <= i < scores.len() && scores[i] is Some && threshold.rank() <= scores[i]->Some_0.rank()
            ==> !drops(scores, threshold),
        threshold.is_nan() ==> !drops(scores, threshold),
{
    if threshold.is_nan() && scores.len() > 0 {
        assert(!scores[0]->Some_0.less(threshold));
    }
}

/// A further text can only save an add: what is dropped with it is dropped without it, as
/// long as there is a text left.
pub proof fn lemma_more_texts_drop_less(
    scores: Seq<Option<Score>>,
    more: Option<Score>,
    threshold: Score,
)
    requires
        scores.len() > 0,
        drops(scores.push(more), threshold),
    ensures
        drops(scores, threshold),
{
    assert forall|i: int| 0 <= i < scores.len() implies (#[trigger] scores[i]) is Some
        && scores[i]->Some_0.less(threshold) by {
        assert(scores.push(more)[i] == scores[i]);
    }
}

/// Each text counts, and counts alike: an add with a single text is dropped exactly if that text
/// was judged and scored below the threshold, and an add with the texts of two others is dropped
/// exactly if both of them are.
pub proof fn lemma_every_text_counts(
    a: Seq<Option<Score>>,
    b: Seq<Option<Score>>,
    single: Option<Score>,
    threshold: Score,
)
    ensures
        drops(seq![single], threshold) <==> (single matches Some(p) && p.less(threshold)),
        a.len() > 0 && b.len() > 0 ==> (drops(a + b, threshold) <==> drops(a, threshold) && drops(
            b,
            threshold,
        )),
        !drops(Seq::empty(), threshold),
{
    assert(seq![single][0] == single);
    if a.len() > 0 && b.len() > 0 {
        let both = a + b;
        if drops(both, threshold) {
            assert forall|i: int| 0 <= i < a.len() implies (#[trigger] a[i]) is Some
                && a[i]->Some_0.less(threshold) by {
                assert(both[i] == a[i]);
            }
            assert forall|i: int| 0 <= i < b.len() implies (#[trigger] b[i]) is Some
                && b[i]->Some_0.less(threshold) by {
                assert(both[a.len() + i] == b[i]);
            }
        }
        if drops(a, threshold) && drops(b, threshold) {
            assert forall|i: int| 0 <= i < both.len() implies (#[trigger] both[i]) is Some
                && both[i]->Some_0.less(threshold) by {
                if i < a.len() {
                    assert(both[i] == a[i]);
                } else {
                    assert(both[i] == b[i - a.len()]);
                }
            }
        }
    }
}

/// A lower threshold drops no more: what is dropped at it is dropped at every higher one.
pub proof fn lemma_lower_threshold_drops_less(
    scores: Seq<Option<Score>>,
    low: Score,
    high: Score,
)
    requires
        low.less(high),
        drops(scores, low),
    ensures
        drops(scores, high),
{
}

/// A text brought onto one line and cut after the first characters, for the log.
pub open spec fn previewed(s: Seq<char>) -> Seq<char> {
    text::clipped(text::joined(text::words(s)), PREVIEW_CHARS as nat)
}

/// The first characters of the text on one line, for the log.
pub fn preview(text: &str) -> (line: String)
    ensures
        line@ == previewed(text@),
        line@.is_prefix_of(text::joined(text::words(text@))),
        line@.len() == if text::joined(text::words(text@)).len() <= 120 {
            text::joined(text::words(text@)).len() as int
        } else {
            120
        },
{
    text::clip(text::single_spaced(text).as_str(), PREVIEW_CHARS).to_owned()
}

/// A preview is the start of the words of the text, a single space apart: all of them where
/// they take no more than a hundred and twenty characters, else that many.
pub proof fn lemma_preview_is_the_start(s: Seq<char>)
    ensures
        previewed(s).is_prefix_of(text::joined(text::words(s))),
        text::joined(text::words(s)).len() <= 120 ==> previewed(s) == text::joined(text::words(s)),
        text::joined(text::words(s)).len() > 120 ==> previewed(s).len() == 120,
{
}

/// A preview is short and stays on one line: its only white space is the plain space.
pub proof fn lemma_preview_is_one_short_line(s: Seq<char>)
    ensures
        previewed(s).len() <= PREVIEW_CHARS,
        forall|i: int|
            0 <= i < previewed(s).len() && text::is_white(#[trigger] previewed(s)[i])
                ==> previewed(s)[i] == ' ',
{
    text::lemma_single_spaced_is_one_line(s);
    let line = text::joined(text::words(s));
    assert forall|i: int|
        0 <= i < previewed(s).len() && text::is_white(#[trigger] previewed(s)[i]) implies previewed(
        s,
    )[i] == ' ' by {
        assert(previewed(s)[i] == line[i]);
    }
}

/// What the judge is asked.
pub const INSTRUCTIONS: &'static str =
    "Does `memory.text` state a durable business fact worth keeping in a long-term knowledge graph?";

/// When the answer is yes.
pub const CRITERION_TRUE: &'static str =
    "A concrete, lasting fact about people, organisations, deals, products, policies, preferences, commitments or relationships that will still matter later.";

/// When the answer is no.
pub const CRITERION_FALSE: &'static str =
    "Small talk, greetings, acknowledgements, transient status updates, or chatter with no lasting fact.";

/// The object with the one member.
pub open spec fn only(name: Seq<char>, value: Json) -> Json {
    Json::Object(json::no_members().insert(name, value))
}

/// The question that is put to the judge.
pub open spec fn durable_question() -> Json {
    Json::Object(
        json::no_members().insert("type"@, Json::Str("noul"@)).insert(
            "instructions"@,
            Json::Str(INSTRUCTIONS@),
        ).insert(
            "criteria"@,
            Json::Object(
                json::no_members().insert("true"@, Json::Str(CRITERION_TRUE@)).insert(
                    "false"@,
                    Json::Str(CRITERION_FALSE@),
                ),
            ),
        ),
    )
}

/// The request for the judgment of a text: the judge, the start of the text, the question.
pub open spec fn request_json(model: Seq<char>, memory: Seq<char>) -> Json {
    let judged = text::clipped(memory, MAX_JUDGED_CHARS as nat);
    Json::Object(
        json::no_members().insert("model"@, Json::Str(model)).insert(
            "state"@,
            only("memory"@, only("text"@, Json::Str(judged))),
        ).insert("questions"@, only("durable"@, durable_question())),
    )
}

/// The member of a value that may be missing.
pub open spec fn at(json: Option<Json>, name: Seq<char>) -> Option<Json> {
    match json {
        Some(j) => json::member(j, name),
        None => None,
    }
}

/// What the request sends for judgment is the start of the memory, all of it where it is
/// short; and what it asks for is a `noul`.
pub proof fn lemma_request_sends_the_start(model: Seq<char>, memory: Seq<char>)
    ensures
        at(at(at(Some(request_json(model, memory)), "state"@), "memory"@), "text"@) == Some(
            Json::Str(text::clipped(memory, MAX_JUDGED_CHARS as nat)),
        ),
        text::clipped(memory, MAX_JUDGED_CHARS as nat).len() <= MAX_JUDGED_CHARS,
        memory.len() <= MAX_JUDGED_CHARS ==> text::clipped(memory, MAX_JUDGED_CHARS as nat)
            == memory,
        at(Some(request_json(model, memory)), "model"@) == Some(Json::Str(model)),
        at(at(at(Some(request_json(model, memory)), "questions"@), "durable"@), "type"@) == Some(
            Json::Str("noul"@),
        ),
{
    reveal_strlit("model");
    reveal_strlit("state");
    reveal_strlit("questions");
    reveal_strlit("type");
    reveal_strlit("instructions");
    reveal_strlit("criteria");
    assert("model"@.len() == 5 && "state"@.len() == 5 && "questions"@.len() == 9);
    assert("model"@[0] == 'm' && "state"@[0] == 's');
    assert("type"@.len() == 4 && "instructions"@.len() == 12 && "criteria"@.len() == 8);
}

/// The request, spelled out: which members it has, at every level, and what they hold. The text
/// that it sends is the start of the memory, all of it where it has no more than six thousand
/// characters, else that many.
pub proof fn lemma_request_spelled_out(model: Seq<char>, memory: Seq<char>, sent: Seq<char>)
    requires
        sent.is_prefix_of(memory),
        sent.len() == if memory.len() <= 6000 {
            memory.len() as int
        } else {
            6000
        },
    ensures
        request_json(model, memory) == Json::Object(
            map![
                "model"@ => Json::Str(model),
                "state"@ => Json::Object(
                    map!["memory"@ => Json::Object(map!["text"@ => Json::Str(sent)])],
                ),
                "questions"@ => Json::Object(
                    map![
                        "durable"@ => Json::Object(
                            map![
                                "type"@ => Json::Str("noul"@),
                                "instructions"@ => Json::Str(
                                    "Does `memory.text` state a durable business fact worth keeping in a long-term knowledge graph?"@,
                                ),
                                "criteria"@ => Json::Object(
                                    map![
                                        "true"@ => Json::Str(
                                            "A concrete, lasting fact about people, organisations, deals, products, policies, preferences, commitments or relationships that will still matter later."@,
                                        ),
                                        "false"@ => Json::Str(
                                            "Small talk, greetings, acknowledgements, transient status updates, or chatter with no lasting fact."@,
                                        ),
                                    ],
                                ),
                            ],
                        ),
                    ],
                ),
            ],
        ),
{
    assert(sent == text::clipped(memory, 6000));
}

/// The object with the one member.
fn object_of(name: &str, value: serde_json::Value) -> (object: serde_json::Value)
    ensures
        json::json_of(object) == only(name@, json::json_of(value)),
{
    let mut members = serde_json::Map::new();
    members.insert(name.to_owned(), value);
    json::object_value(members)
}

/// A string as a JSON value.
fn text_value(text: &str) -> (value: serde_json::Value)
    ensures
        json::json_of(value) == Json::Str(text@),
{
    json::string_value(text.to_owned())
}

/// The request for the judgment of a memory.
pub fn request_body(model: &str, text: &str) -> (body: serde_json::Value)
    ensures
        json::json_of(body) == request_json(model@, text@),
{
    let judged = text::clip(text, MAX_JUDGED_CHARS);
    let mut criteria = serde_json::Map::new();
    criteria.insert("true".to_owned(), text_value(CRITERION_TRUE));
    criteria.insert("false".to_owned(), text_value(CRITERION_FALSE));
    let mut question = serde_json::Map::new();
    question.insert("type".to_owned(), text_value("noul"));
    question.insert("instructions".to_owned(), text_value(INSTRUCTIONS));
    question.insert("criteria".to_owned(), json::object_value(criteria));
    let mut body = serde_json::Map::new();
    body.insert("model".to_owned(), text_value(model));
    body.insert("state".to_owned(), object_of("memory", object_of("text", text_value(judged))));
    body.insert("questions".to_owned(), object_of("durable", json::object_value(question)));
    json::object_value(body)
}

/// The score that a JSON number stands for: itself where it lies between zero and one.
pub open spec fn number_score(number: JsonNumber) -> Option<Score> {
    match number {
        JsonNumber::Unsigned(n) => if n == 0 {
            Some(Score { bits: 0 })
        } else if n == 1 {
            Some(Score { bits: score::ONE_BITS })
        } else {
            None
        },
        JsonNumber::Negative(_) => None,
        JsonNumber::Float(bits) => if (Score { bits }).in_unit() {
            Some(Score { bits })
        } else {
            None
        },
    }
}

/// The score that an answer holds under `answers.durable.noul`; nothing where there is none
/// there.
pub open spec fn answered(body: Json) -> Option<Score> {
    match at(at(at(Some(body), "answers"@), "durable"@), "noul"@) {
        Some(Json::Number(number)) => number_score(number),
        _ => None,
    }
}

/// The score of an answer is the number that stands under `answers.durable.noul`, untouched: a
/// floating-point number between zero and one gives a score with exactly its bits, the integers
/// zero and one give the bits of those numbers, and any other number, as well as an answer
/// without a number there, gives none.
pub proof fn lemma_score_is_the_number_answered(body: Json)
    ensures
        answered(body) is Some ==> {
            &&& json::member(body, "answers"@) matches Some(answers)
            &&& json::member(answers, "durable"@) matches Some(durable)
            &&& json::member(durable, "noul"@) matches Some(Json::Number(_))
        },
        json::member(body, "answers"@) matches Some(answers) ==> json::member(
            answers,
            "durable"@,
        ) matches Some(durable) ==> json::member(durable, "noul"@) matches Some(
            Json::Number(number),
        ) ==> match number {
            JsonNumber::Float(bits) => if bits <= 0x3ff0_0000_0000_0000 || bits
                == 0x8000_0000_0000_0000 {
                answered(body) matches Some(p) && p.bits == bits
            } else {
                answered(body) is None
            },
            JsonNumber::Unsigned(n) => if n == 0 {
                answered(body) matches Some(p) && p.bits == 0
            } else if n == 1 {
                answered(body) matches Some(p) && p.bits == 0x3ff0_0000_0000_0000
            } else {
                answered(body) is None
            },
            JsonNumber::Negative(_) => answered(body) is None,
        },
{
}

/// A greater answer never gives a lesser score: of two answers that hold floating-point numbers
/// and give scores, the one with the number that is not less gives the score that is not less,
/// and different numbers give different scores.
pub proof fn lemma_greater_answers_score_no_less(
    low: Json,
    low_durable: Json,
    low_bits: u64,
    high: Json,
    high_durable: Json,
    high_bits: u64,
)
    requires
        json::member(low, "answers"@) is Some,
        json::member(json::member(low, "answers"@)->Some_0, "durable"@) == Some(low_durable),
        json::member(low_durable, "noul"@) == Some(Json::Number(JsonNumber::Float(low_bits))),
        json::member(high, "answers"@) is Some,
        json::member(json::member(high, "answers"@)->Some_0, "durable"@) == Some(high_durable),
        json::member(high_durable, "noul"@) == Some(Json::Number(JsonNumber::Float(high_bits))),
        low_bits <= high_bits <= 0x3ff0_0000_0000_0000,
    ensures
        answered(low) is Some,
        answered(high) is Some,
        answered(low)->Some_0.bits <= answered(high)->Some_0.bits,
        !answered(high)->Some_0.less(answered(low)->Some_0),
        low_bits < high_bits ==> answered(low)->Some_0.less(answered(high)->Some_0),
{
    lemma_score_is_the_number_answered(low);
    lemma_score_is_the_number_answered(high);
}

/// `answers.durable.noul` of an answer, where it is a number between zero and one.
pub fn parse_noul(body: &serde_json::Value) -> (score: Option<Score>)
    ensures
        score == answered(json::json_of(*body)),
        score is Some ==> {
            &&& json::member(json::json_of(*body), "answers"@) matches Some(answers)
            &&& json::member(answers, "durable"@) matches Some(durable)
            &&& json::member(durable, "noul"@) matches Some(Json::Number(_))
        },
        json::member(json::json_of(*body), "answers"@) matches Some(answers) ==> json::member(
            answers,
            "durable"@,
        ) matches Some(durable) ==> json::member(durable, "noul"@) matches Some(
            Json::Number(number),
        ) ==> match number {
            JsonNumber::Float(bits) => if bits <= 0x3ff0_0000_0000_0000 || bits
                == 0x8000_0000_0000_0000 {
                score matches Some(p) && p.bits == bits
            } else {
                score is None
            },
            JsonNumber::Unsigned(n) => if n == 0 {
                score matches Some(p) && p.bits == 0
            } else if n == 1 {
                score matches Some(p) && p.bits == 0x3ff0_0000_0000_0000
            } else {
                score is None
            },
            JsonNumber::Negative(_) => score is None,
        },
        score matches Some(p) ==> p.in_unit(),
{
    let answers = match json::get(body, "answers") {
        Some(answers) => answers,
        None => {
            return None;
        },
    };
    let durable = match json::get(answers, "durable") {
        Some(durable) => durable,
        None => {
            return None;
        },
    };
    let noul = match json::get(durable, "noul") {
        Some(noul) => noul,
        None => {
            return None;
        },
    };
    match json::as_double(noul) {
        Some(bits) => {
            let score = Score { bits };
            if score.is_in_unit() {
                Some(score)
            } else {
                None
            }
        },
        None => None,
    }
}

/// Whether the judge's reply carries an answer, by its HTTP status.
pub fn is_answered(status: u16) -> (ok: bool)
    ensures
        ok == (200 <= status <= 299),
{
    200 <= status && status <= 299
}

/// The score in the body of a reply; nothing where the body is not JSON or holds no score.
pub fn parse_reply(body: &[u8]) -> (score: Option<Score>)
    ensures
        score == match json::parsed_json_bytes(body@) {
            Some(answer) => answered(answer),
            None => None,
        },
{
    match json::parse_bytes(body) {
        Some(answer) => parse_noul(&answer),
        None => None,
    }
}

/// The key to ask the judge with: the ingest gate's own where it is not blank, else the language
/// model's where that is not blank, trimmed.
pub open spec fn key_chosen(gate: Option<Seq<char>>, general: Option<Seq<char>>) -> Option<
    Seq<char>,
> {
    if gate is Some && text::trimmed(gate->Some_0).len() > 0 {
        Some(text::trimmed(gate->Some_0))
    } else if general is Some && text::trimmed(general->Some_0).len() > 0 {
        Some(text::trimmed(general->Some_0))
    } else {
        None
    }
}

/// Which key is chosen: a key of the ingest gate that is not blank, whatever the other is; else
/// one of the language model that is not blank; and the whole of it, without the white space at
/// its ends.
pub proof fn lemma_key_by_key(gate: Option<Seq<char>>, general: Option<Seq<char>>)
    ensures
        gate matches Some(g) ==> text::trimmed(g).len() > 0 ==> key_chosen(gate, general) == Some(
            text::trimmed(g),
        ),
        (gate matches Some(g) ==> text::trimmed(g).len() == 0) ==> (general matches Some(g)
            ==> text::trimmed(g).len() > 0 ==> key_chosen(gate, general) == Some(text::trimmed(g))),
        (gate matches Some(g) ==> text::trimmed(g).len() == 0) && (general matches Some(g)
            ==> text::trimmed(g).len() == 0) ==> key_chosen(gate, general) is None,
{
}

/// The key to ask the judge with; nothing is asked without one.
pub fn api_key(gate: Option<&str>, general: Option<&str>) -> (key: Option<String>)
    ensures
        gate matches Some(g) ==> text::trimmed(g@).len() > 0 ==> (key matches Some(k) && k@
            == text::trimmed(g@)),
        (gate matches Some(g) ==> text::trimmed(g@).len() == 0) ==> (general matches Some(g)
            ==> text::trimmed(g@).len() > 0 ==> (key matches Some(k) && k@ == text::trimmed(g@))),
        (gate matches Some(g) ==> text::trimmed(g@).len() == 0) && (general matches Some(g)
            ==> text::trimmed(g@).len() == 0) ==> key is None,
        text::owned_text(key) == key_chosen(text::text_of(gate), text::text_of(general)),
{
    match non_blank(gate) {
        Some(key) => Some(key),
        None => non_blank(general),
    }
}

/// The setting, trimmed, unless it is missing or blank.
fn non_blank(setting: Option<&str>) -> (inner: Option<String>)
    ensures
        text::owned_text(inner) == key_chosen(text::text_of(setting), None),
{
    match setting {
        Some(s) => {
            let inner = text::trim(s);
            if inner.is_empty() {
                None
            } else {
                Some(inner.to_owned())
            }
        },
        None => None,
    }
}

/// Where to ask for judgments.
pub fn judge_url(configured: Option<String>) -> (url: String)
    ensures
        url@ == match configured {
            Some(s) => s@,
            None => DEFAULT_URL@,
        },
        configured is None ==> url@ == "https://openrouter.ai/api/v1/systemone"@,
{
    match configured {
        Some(s) => s,
        None => DEFAULT_URL.to_owned(),
    }
}

/// The judge to ask.
pub fn judge_model(configured: Option<String>) -> (model: String)
    ensures
        model@ == match configured {
            Some(s) => s@,
            None => DEFAULT_MODEL@,
        },
        configured is None ==> model@ == "typesafe/jev-1.13"@,
{
    match configured {
        Some(s) => s,
        None => DEFAULT_MODEL.to_owned(),
    }
}

/// A request to the judge.
pub struct JudgeRequest {
    /// Where to send it.
    pub url: String,
    /// The key to send it with.
    pub key: String,
    /// What to send.
    pub body: serde_json::Value,
}

/// The request that has a memory judged; nothing is asked where there is no key to ask with.
pub fn judge_request(
    gate_key: Option<&str>,
    general_key: Option<&str>,
    url: Option<String>,
    model: Option<String>,
    text: &str,
) -> (request: Option<JudgeRequest>)
    ensures
        request is Some <==> key_chosen(
            text::text_of(gate_key),
            text::text_of(general_key),
        ) is Some,
        request matches Some(r) ==> {
            &&& key_chosen(text::text_of(gate_key), text::text_of(general_key)) == Some(r.key@)
            &&& r.url@ == match url {
                Some(s) => s@,
                None => DEFAULT_URL@,
            }
            &&& json::json_of(r.body) == request_json(
                match model {
                    Some(s) => s@,
                    None => DEFAULT_MODEL@,
                },
                text@,
            )
        },
{
    let key = match api_key(gate_key, general_key) {
        Some(key) => key,
        None => {
            return None;
        },
    };
    let url = judge_url(url);
    let model = judge_model(model);
    let body = request_body(model.as_str(), text);
    Some(JudgeRequest { url, key, body })
}

/// The score that a reply of the judge gives; nothing on any failure: an error status, a body
/// that could not be read, or one that holds no score.
pub fn judge_reply(status: u16, body: Option<&[u8]>) -> (score: Option<Score>)
    ensures
        score == if 200 <= status <= 299 && body is Some {
            match json::parsed_json_bytes(body->Some_0@) {
                Some(answer) => answered(answer),
                None => None,
            }
        } else {
            None
        },
{
    if !is_answered(status) {
        return None;
    }
    match body {
        Some(bytes) => parse_reply(bytes),
        None => None,
    }
}

}
