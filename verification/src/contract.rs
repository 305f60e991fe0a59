//! The response rules clients depend on, checked against a request and the response kime gave for
//! it.
//!
//! These are the rules a client breaks on, not a schema. A schema says `probabilities` is an object
//! of numbers. jev-ultrafast says the numbers sum to one within 0.02, and it is the second one that
//! decides whether an agent run works.
//!
//! The one rule that computes in floating point across several numbers, that a score is the
//! expected level of its probabilities, is decided by the caller and handed in as a
//! `ScoreVerdict`; every other rule is decided here.

use vstd::prelude::*;
use vstd::string::StringExecFns;
use crate::json::{
    find_member, json_equal, json_eq, json_text, keys, lookup, push_json, texts, Json,
};
use crate::text::{
    chars_of, debug_str, debug_text, decimal, ends_with, ends_with_exec, push_decimal,
    push_signed_decimal, signed_decimal,
};

verus! {

/// Appends the strings of `src` to `dst`.
pub fn extend(dst: &mut Vec<String>, src: Vec<String>)
    ensures
        texts(final(dst)@) == texts(old(dst)@) + texts(src@),
{
    let mut src = src;
    let ghost a = dst@;
    let ghost b = src@;
    dst.append(&mut src);
    assert(texts(dst@) =~= texts(a) + texts(b));
}

/// A list of strings as `Debug` writes a `Vec` of them: `["a", "b"]`.
pub open spec fn debug_list(items: Seq<Seq<char>>) -> Seq<char> {
    seq!['['] + debug_items(items, 0) + seq![']']
}

/// Items `i..` of a `Debug` list, each after `, ` but the first.
pub open spec fn debug_items(items: Seq<Seq<char>>, i: int) -> Seq<char>
    decreases items.len() - i,
{
    if 0 <= i < items.len() {
        (if i > 0 {
            ", "@
        } else {
            Seq::empty()
        }) + debug_str(items[i]) + debug_items(items, i + 1)
    } else {
        Seq::empty()
    }
}

/// Appends `items` to `out` as `Debug` writes a `Vec` of strings.
pub fn push_debug_list(out: &mut String, items: &Vec<String>)
    ensures
        final(out)@ == old(out)@ + debug_list(texts(items@)),
{
    let ghost all = texts(items@);
    let ghost start = out@;
    out.append("[");
    let mut i: usize = 0;
    while i < items.len()
        invariant
            i <= items@.len(),
            all == texts(items@),
            out@ + debug_items(all, i as int) == start + "["@ + debug_items(all, 0),
        decreases items@.len() - i,
    {
        let ghost before = out@;
        if i > 0 {
            out.append(", ");
        }
        let shown = debug_text(items[i].as_str());
        out.append(shown.as_str());
        let ghost sep: Seq<char> = if i > 0 {
            ", "@
        } else {
            Seq::empty()
        };
        assert(out@ == before + sep + debug_str(all[i as int]));
        assert(out@ + debug_items(all, i + 1) =~= before + debug_items(all, i as int));
        i += 1;
    }
    out.append("]");
    proof {
        reveal_strlit("[");
        reveal_strlit("]");
    }
    assert(out@ =~= start + debug_list(all));
}

/// The names of the members of `es`.
pub fn key_list(es: &Vec<(String, Json)>) -> (r: Vec<String>)
    ensures
        texts(r@) == keys(es@),
{
    let mut r: Vec<String> = Vec::new();
    let mut i: usize = 0;
    while i < es.len()
        invariant
            i <= es@.len(),
            texts(r@) == keys(es@.take(i as int)),
        decreases es@.len() - i,
    {
        r.push(es[i].0.clone());
        assert(keys(es@.take(i + 1)) =~= keys(es@.take(i as int)).push(es@[i as int].0@));
        assert(texts(r@) =~= keys(es@.take(i + 1)));
        i += 1;
    }
    assert(es@.take(es@.len() as int) =~= es@);
    r
}

/// Whether two lists of strings are the same, in the same order.
pub fn same_strings(a: &Vec<String>, b: &Vec<String>) -> (r: bool)
    ensures
        r == (texts(a@) == texts(b@)),
{
    if a.len() != b.len() {
        assert(texts(a@).len() != texts(b@).len());
        return false;
    }
    let mut i: usize = 0;
    while i < a.len()
        invariant
            i <= a@.len() == b@.len(),
            forall|j: int| 0 <= j < i ==> a@[j]@ == b@[j]@,
        decreases a@.len() - i,
    {
        if a[i] != b[i] {
            assert(texts(a@)[i as int] != texts(b@)[i as int]);
            return false;
        }
        i += 1;
    }
    assert(texts(a@) =~= texts(b@));
    true
}

/// The string items of an array, from item `i` on, as `filter_map(Value::as_str)` keeps them.
pub open spec fn string_items(xs: Seq<Json>, i: int) -> Seq<Seq<char>>
    decreases xs.len() - i,
{
    if 0 <= i < xs.len() {
        (match xs[i] {
            Json::String(s) => seq![s@],
            _ => Seq::empty(),
        }) + string_items(xs, i + 1)
    } else {
        Seq::empty()
    }
}

/// The labels a question offers: the names of its `criteria` object, or the strings of its
/// `criteria` array, or none.
pub open spec fn labels(question: Json) -> Seq<Seq<char>> {
    match question.field("criteria"@) {
        Some(Json::Object(es)) => keys(es@),
        Some(Json::Array(xs)) => string_items(xs@, 0),
        _ => Seq::empty(),
    }
}

/// The labels a question offers.
pub fn question_labels(question: &Json) -> (r: Vec<String>)
    ensures
        texts(r@) == labels(*question),
{
    match question.get("criteria") {
        Some(c) => match c {
            Json::Object(es) => key_list(es),
            Json::Array(xs) => {
                let mut r: Vec<String> = Vec::new();
                let mut i: usize = 0;
                while i < xs.len()
                    invariant
                        i <= xs@.len(),
                        string_items(xs@, 0) == texts(r@) + string_items(xs@, i as int),
                    decreases xs@.len() - i,
                {
                    let ghost before = r@;
                    match &xs[i] {
                        Json::String(s) => {
                            r.push(s.clone());
                        },
                        _ => {},
                    }
                    assert(string_items(xs@, 0) =~= texts(r@) + string_items(xs@, i + 1));
                    i += 1;
                }
                assert(texts(r@) =~= labels(*question));
                r
            },
            _ => Vec::new(),
        },
        None => Vec::new(),
    }
}

/// What the probability rule says of members `i..`: each must be a finite number within `[0, 1]`.
pub open spec fn probability_entry_problems(es: Seq<(String, Json)>, i: int) -> Seq<Seq<char>>
    decreases es.len() - i,
{
    if 0 <= i < es.len() {
        (if es[i].1 matches Json::Number(n) && n.unit {
            Seq::empty()
        } else {
            seq![
                "probability for "@ + es[i].0@ + " is "@ + json_text(es[i].1)
                    + ", not a finite value in [0, 1]"@,
            ]
        }) + probability_entry_problems(es, i + 1)
    } else {
        Seq::empty()
    }
}

/// The sum of the rounded hundredths of the members `i..` that are numbers within `[0, 1]`.
pub open spec fn hundredths_from(es: Seq<(String, Json)>, i: int) -> int
    decreases es.len() - i,
{
    if 0 <= i < es.len() {
        (match es[i].1 {
            Json::Number(n) => if n.unit {
                n.hundredths as int
            } else {
                0
            },
            _ => 0,
        }) + hundredths_from(es, i + 1)
    } else {
        0
    }
}

/// What the probability rules say of an answer, and its probabilities when it has an object of
/// them: every probability is a finite value in `[0, 1]`, and, rounded to two decimals by largest
/// remainder, the hundredths sum to exactly one hundred.
pub open spec fn probability_problems(answer: Json) -> (Seq<Seq<char>>, Option<Seq<(String, Json)>>) {
    match answer.field("probabilities"@) {
        Some(Json::Object(es)) => (
            probability_entry_problems(es@, 0) + if hundredths_from(es@, 0) != 100 {
                seq![
                    "probabilities sum to "@ + signed_decimal(hundredths_from(es@, 0))
                        + " hundredths, not exactly 100"@,
                ]
            } else {
                Seq::empty()
            },
            Some(es@),
        ),
        _ => (seq!["no probabilities"@], None),
    }
}

/// Checks an answer's probabilities; appends what the rules say to `problems`, and gives the
/// probabilities back when the answer has an object of them.
pub fn check_probabilities<'a>(answer: &'a Json, problems: &mut Vec<String>) -> (r: Option<
    &'a Vec<(String, Json)>,
>)
    ensures
        texts(final(problems)@) == texts(old(problems)@) + probability_problems(*answer).0,
        match r {
            Some(es) => probability_problems(*answer).1 == Some(es@),
            None => probability_problems(*answer).1 is None,
        },
{
    let es = match answer.get("probabilities") {
        Some(p) => match p {
            Json::Object(es) => es,
            _ => {
                let ghost before = problems@;
                problems.push(String::from_str("no probabilities"));
                assert(texts(problems@) =~= texts(before) + probability_problems(*answer).0);
                return None;
            },
        },
        None => {
            let ghost before = problems@;
            problems.push(String::from_str("no probabilities"));
            assert(texts(problems@) =~= texts(before) + probability_problems(*answer).0);
            return None;
        },
    };
    let ghost start = problems@;
    let mut sum: i128 = 0;
    let mut i: usize = 0;
    while i < es.len()
        invariant
            i <= es@.len(),
            -(i as int) * 0x8000_0000_0000_0000 <= sum <= (i as int) * 0x8000_0000_0000_0000,
            hundredths_from(es@, 0) == sum + hundredths_from(es@, i as int),
            texts(start) + probability_entry_problems(es@, 0) == texts(problems@)
                + probability_entry_problems(es@, i as int),
        decreases es@.len() - i,
    {
        let ghost before = problems@;
        let mut counted = false;
        match &es[i].1 {
            Json::Number(n) => {
                if n.unit {
                    sum = sum + n.hundredths as i128;
                    counted = true;
                }
            },
            _ => {},
        }
        if !counted {
            let mut msg = String::from_str("probability for ");
            msg.append(es[i].0.as_str());
            msg.append(" is ");
            push_json(&mut msg, &es[i].1);
            msg.append(", not a finite value in [0, 1]");
            problems.push(msg);
        }
        assert(texts(start) + probability_entry_problems(es@, 0) =~= texts(problems@)
            + probability_entry_problems(es@, i + 1));
        i += 1;
    }
    let ghost middle = problems@;
    assert(texts(middle) == texts(start) + probability_entry_problems(es@, 0));
    assert(sum == hundredths_from(es@, 0));
    assert(probability_problems(*answer).0 == probability_entry_problems(es@, 0) + if sum != 100 {
        seq![
            "probabilities sum to "@ + signed_decimal(sum as int)
                + " hundredths, not exactly 100"@,
        ]
    } else {
        Seq::<Seq<char>>::empty()
    });
    if sum != 100 {
        let mut msg = String::from_str("probabilities sum to ");
        assert(sum > i128::MIN) by {
            assert(i <= usize::MAX);
        }
        push_signed_decimal(&mut msg, sum);
        msg.append(" hundredths, not exactly 100");
        let ghost m = msg@;
        problems.push(msg);
        assert(texts(problems@) =~= texts(middle).push(m));
    }
    assert(texts(problems@) =~= texts(start) + probability_problems(*answer).0);
    Some(es)
}

/// Appends one problem to `problems`.
pub fn say(problems: &mut Vec<String>, m: String)
    ensures
        texts(final(problems)@) == texts(old(problems)@).push(m@),
{
    let ghost before = problems@;
    let ghost t = m@;
    problems.push(m);
    assert(texts(problems@) =~= texts(before).push(t));
}

/// What a unit rule says of an answer's member `name`: it must be a number within `[0, 1]`.
pub open spec fn unit_problems(answer: Json, name: Seq<char>) -> Seq<Seq<char>> {
    match answer.field(name) {
        Some(Json::Number(n)) => if n.unit {
            Seq::empty()
        } else {
            seq![name + " Some("@ + n.shown@ + ") is not in [0, 1]"@]
        },
        _ => seq![name + " None is not in [0, 1]"@],
    }
}

/// Checks that an answer's member `name` is a number within `[0, 1]`.
pub fn check_unit(answer: &Json, name: &str, problems: &mut Vec<String>)
    ensures
        texts(final(problems)@) == texts(old(problems)@) + unit_problems(*answer, name@),
{
    let ghost before = problems@;
    match answer.get(name) {
        Some(v) => match v {
            Json::Number(n) => {
                if !n.unit {
                    let mut msg = String::from_str(name);
                    msg.append(" Some(");
                    msg.append(n.shown.as_str());
                    msg.append(") is not in [0, 1]");
                    say(problems, msg);
                }
            },
            _ => {
                let mut msg = String::from_str(name);
                msg.append(" None is not in [0, 1]");
                say(problems, msg);
            },
        },
        None => {
            let mut msg = String::from_str(name);
            msg.append(" None is not in [0, 1]");
            say(problems, msg);
        },
    }
    assert(texts(problems@) =~= texts(before) + unit_problems(*answer, name@));
}

/// Whether the probability of `c` is a number that no other probability exceeds.
pub open spec fn is_argmax(es: Seq<(String, Json)>, c: Seq<char>) -> bool {
    match lookup(es, c) {
        Some(Json::Number(x)) => forall|i: int|
            0 <= i < es.len() ==> (#[trigger] es[i].1 matches Json::Number(y) ==> y.order
                <= x.order),
        _ => false,
    }
}

/// Whether the probability of `c` is a number that no other probability exceeds.
pub fn argmax_holds(es: &Vec<(String, Json)>, c: &String) -> (r: bool)
    ensures
        r == is_argmax(es@, c@),
{
    let top = match find_member(es, c) {
        None => {
            return false;
        },
        Some(j) => match &es[j].1 {
            Json::Number(x) => x.order,
            _ => {
                return false;
            },
        },
    };
    let mut i: usize = 0;
    while i < es.len()
        invariant
            i <= es@.len(),
            lookup(es@, c@) matches Some(Json::Number(x)) && x.order == top,
            forall|k: int|
                0 <= k < i ==> (#[trigger] es@[k].1 matches Json::Number(y) ==> y.order <= top),
        decreases es@.len() - i,
    {
        match &es[i].1 {
            Json::Number(y) => {
                if y.order > top {
                    return false;
                }
            },
            _ => {},
        }
        i += 1;
    }
    true
}

/// What the label rule says: the probability keys must be the offered labels, in order.
pub open spec fn labels_problem(es: Seq<(String, Json)>, want: Seq<Seq<char>>) -> Seq<Seq<char>> {
    if keys(es) != want {
        seq![
            "probability keys are "@ + debug_list(keys(es)) + ", the offered labels are "@
                + debug_list(want),
        ]
    } else {
        Seq::empty()
    }
}

/// What the argmax rule says: `choice` must be a label whose probability no other exceeds.
pub open spec fn argmax_problem(answer: Json, es: Seq<(String, Json)>) -> Seq<Seq<char>> {
    match answer.field("choice"@) {
        Some(Json::String(c)) => if is_argmax(es, c@) {
            Seq::empty()
        } else {
            seq!["choice Some("@ + debug_str(c@) + ") is not an argmax of the probabilities"@]
        },
        _ => seq!["choice None is not an argmax of the probabilities"@],
    }
}

/// What the rules for a choice question say of its answer.
pub open spec fn choice_problems(question: Json, answer: Json) -> Seq<Seq<char>> {
    let (found, p) = probability_problems(answer);
    match p {
        None => found,
        Some(es) => found + labels_problem(es, labels(question)) + argmax_problem(answer, es)
            + unit_problems(answer, "confidence"@),
    }
}

/// Checks the answer to a choice question.
pub fn check_choice(question: &Json, answer: &Json, problems: &mut Vec<String>)
    ensures
        texts(final(problems)@) == texts(old(problems)@) + choice_problems(*question, *answer),
{
    let ghost start = problems@;
    let want = question_labels(question);
    let es = match check_probabilities(answer, problems) {
        None => {
            return;
        },
        Some(es) => es,
    };
    let ghost after_p = problems@;
    let got = key_list(es);
    if !same_strings(&got, &want) {
        let mut msg = String::from_str("probability keys are ");
        push_debug_list(&mut msg, &got);
        msg.append(", the offered labels are ");
        push_debug_list(&mut msg, &want);
        say(problems, msg);
    }
    let ghost after_l = problems@;
    assert(texts(after_l) =~= texts(after_p) + labels_problem(es@, labels(*question)));
    match answer.get("choice") {
        Some(v) => match v {
            Json::String(c) => {
                if !argmax_holds(es, c) {
                    let mut msg = String::from_str("choice Some(");
                    let shown = debug_text(c.as_str());
                    msg.append(shown.as_str());
                    msg.append(") is not an argmax of the probabilities");
                    say(problems, msg);
                }
            },
            _ => {
                say(problems, String::from_str("choice None is not an argmax of the probabilities"));
            },
        },
        None => {
            say(problems, String::from_str("choice None is not an argmax of the probabilities"));
        },
    }
    let ghost after_a = problems@;
    assert(texts(after_a) =~= texts(after_l) + argmax_problem(*answer, es@));
    check_unit(answer, "confidence", problems);
    assert(texts(problems@) =~= texts(start) + choice_problems(*question, *answer));
}

/// What the caller decided of the score rule for the answer to question `id`: that the score is
/// the expected level of the probabilities, within a tolerance that grows with the number of
/// levels. The rule computes in floating point, so the caller decides it; `problem` is what it
/// says, if the answer breaks it.
#[derive(Debug)]
pub struct ScoreVerdict {
    pub id: String,
    pub problem: Option<String>,
}

/// What the first verdict for question `id` says, if there is one.
pub open spec fn verdict_problems(vs: Seq<ScoreVerdict>, id: Seq<char>) -> Seq<Seq<char>>
    decreases vs.len(),
{
    if vs.len() == 0 {
        Seq::empty()
    } else if vs[0].id@ == id {
        match vs[0].problem {
            Some(m) => seq![m@],
            None => Seq::empty(),
        }
    } else {
        verdict_problems(vs.drop_first(), id)
    }
}

/// Appends what the first verdict for question `id` says.
fn check_verdict(verdicts: &Vec<ScoreVerdict>, id: &String, problems: &mut Vec<String>)
    ensures
        texts(final(problems)@) == texts(old(problems)@) + verdict_problems(verdicts@, id@),
{
    let ghost before = problems@;
    let mut i: usize = 0;
    assert(verdicts@.skip(0) =~= verdicts@);
    while i < verdicts.len()
        invariant
            i <= verdicts@.len(),
            problems@ == before,
            old(problems)@ == before,
            verdict_problems(verdicts@, id@) == verdict_problems(verdicts@.skip(i as int), id@),
        decreases verdicts@.len() - i,
    {
        assert(verdicts@.skip(i as int).drop_first() =~= verdicts@.skip(i + 1));
        assert(verdicts@.skip(i as int)[0] == verdicts@[i as int]);
        if verdicts[i].id == *id {
            assert(verdict_problems(verdicts@, id@) == match verdicts@[i as int].problem {
                Some(m) => seq![m@],
                None => Seq::<Seq<char>>::empty(),
            });
            match &verdicts[i].problem {
                Some(m) => {
                    let t = m.clone();
                    assert(t@ == m@);
                    say(problems, t);
                    assert(texts(problems@) =~= texts(before) + seq![m@]);
                },
                None => {
                    assert(texts(problems@) =~= texts(before) + Seq::<Seq<char>>::empty());
                },
            }
            return;
        }
        i += 1;
    }
    assert(texts(problems@) =~= texts(before) + verdict_problems(verdicts@, id@));
}

/// The number of levels of a score question: the length of its `criteria` array, or zero.
pub open spec fn level_count(question: Json) -> nat {
    match question.field("criteria"@) {
        Some(Json::Array(xs)) => xs@.len(),
        _ => 0,
    }
}

/// The levels `0..n`, written in decimal.
pub open spec fn level_names(n: nat) -> Seq<Seq<char>> {
    Seq::new(n, |i: int| decimal(i as nat))
}

/// What the level rule says: the probability keys must be the levels, in order.
pub open spec fn levels_problem(es: Seq<(String, Json)>, want: Seq<Seq<char>>) -> Seq<Seq<char>> {
    if keys(es) != want {
        seq![
            "probability keys are "@ + debug_list(keys(es)) + ", the levels are "@ + debug_list(
                want,
            ),
        ]
    } else {
        Seq::empty()
    }
}

/// What `answer.pointer("/legend/{i}")` finds: member `i` of a `legend` object, or item `i` of a
/// `legend` array.
pub open spec fn legend_at(answer: Json, i: nat) -> Option<Json> {
    match answer.field("legend"@) {
        Some(Json::Object(es)) => lookup(es@, decimal(i)),
        Some(Json::Array(xs)) => if i < xs@.len() {
            Some(xs@[i as int])
        } else {
            None
        },
        _ => None,
    }
}

/// What the legend rule says of criteria `i..`: the legend echoes each exactly as sent.
pub open spec fn legend_problems_from(criteria: Seq<Json>, answer: Json, i: int) -> Seq<Seq<char>>
    decreases criteria.len() - i,
{
    if 0 <= i < criteria.len() {
        (match legend_at(answer, i as nat) {
            Some(v) => if json_eq(v, criteria[i]) {
                Seq::empty()
            } else {
                seq!["legend "@ + decimal(i as nat) + " does not echo the criterion exactly as sent"@]
            },
            None => seq![
                "legend "@ + decimal(i as nat) + " does not echo the criterion exactly as sent"@,
            ],
        }) + legend_problems_from(criteria, answer, i + 1)
    } else {
        Seq::empty()
    }
}

/// What the legend rule says of an answer to a score question.
pub open spec fn legend_problems(question: Json, answer: Json) -> Seq<Seq<char>> {
    match question.field("criteria"@) {
        Some(Json::Array(xs)) => legend_problems_from(xs@, answer, 0),
        _ => Seq::empty(),
    }
}

/// What the rules for a score question say of its answer, with the caller's verdicts on the score.
pub open spec fn score_problems(
    id: Seq<char>,
    question: Json,
    answer: Json,
    verdicts: Seq<ScoreVerdict>,
) -> Seq<Seq<char>> {
    let (found, p) = probability_problems(answer);
    match p {
        None => found,
        Some(es) => found + levels_problem(es, level_names(level_count(question)))
            + verdict_problems(verdicts, id) + legend_problems(question, answer) + unit_problems(
            answer,
            "confidence"@,
        ),
    }
}

/// The levels `0..n`, written in decimal.
fn level_list(n: usize) -> (r: Vec<String>)
    ensures
        texts(r@) == level_names(n as nat),
{
    let mut r: Vec<String> = Vec::new();
    let mut i: usize = 0;
    while i < n
        invariant
            i <= n,
            texts(r@) == level_names(i as nat),
        decreases n - i,
    {
        let mut name = String::new();
        push_decimal(&mut name, i as u128);
        assert(name@ =~= decimal(i as nat));
        let ghost prev = r@;
        let ghost nm = name@;
        assert(texts(prev).len() == i);
        r.push(name);
        assert(r@.len() == i + 1);
        assert(r@[i as int]@ == nm);
        assert forall|j: int| 0 <= j < i + 1 implies texts(r@)[j] == level_names(
            (i + 1) as nat,
        )[j] by {
            if j < i {
                assert(r@[j] == prev[j]);
                assert(texts(prev)[j] == level_names(i as nat)[j]);
            }
        }
        assert(texts(r@) =~= level_names((i + 1) as nat));
        i += 1;
    }
    r
}

/// What the legend of an answer holds at `i`.
fn legend_item(answer: &Json, i: usize) -> (r: Option<&Json>)
    ensures
        match r {
            Some(v) => legend_at(*answer, i as nat) == Some(*v),
            None => legend_at(*answer, i as nat) is None,
        },
{
    match answer.get("legend") {
        Some(l) => match l {
            Json::Object(es) => {
                let mut name = String::new();
                push_decimal(&mut name, i as u128);
                match find_member(es, &name) {
                    Some(j) => Some(&es[j].1),
                    None => None,
                }
            },
            Json::Array(xs) => if i < xs.len() {
                Some(&xs[i])
            } else {
                None
            },
            _ => None,
        },
        None => None,
    }
}

/// Checks that the legend of an answer echoes every criterion exactly as sent.
fn check_legend(question: &Json, answer: &Json, problems: &mut Vec<String>)
    ensures
        texts(final(problems)@) == texts(old(problems)@) + legend_problems(*question, *answer),
{
    let ghost start = problems@;
    let criteria = match question.get("criteria") {
        Some(c) => match c {
            Json::Array(xs) => xs,
            _ => {
                assert(texts(problems@) =~= texts(start) + legend_problems(*question, *answer));
                return;
            },
        },
        None => {
            assert(texts(problems@) =~= texts(start) + legend_problems(*question, *answer));
            return;
        },
    };
    let mut i: usize = 0;
    while i < criteria.len()
        invariant
            i <= criteria@.len(),
            legend_problems(*question, *answer) == legend_problems_from(criteria@, *answer, 0),
            texts(start) + legend_problems_from(criteria@, *answer, 0) == texts(problems@)
                + legend_problems_from(criteria@, *answer, i as int),
        decreases criteria@.len() - i,
    {
        let echoed = match legend_item(answer, i) {
            Some(v) => json_equal(v, &criteria[i]),
            None => false,
        };
        if !echoed {
            let mut msg = String::from_str("legend ");
            push_decimal(&mut msg, i as u128);
            msg.append(" does not echo the criterion exactly as sent");
            say(problems, msg);
        }
        assert(texts(start) + legend_problems_from(criteria@, *answer, 0) =~= texts(problems@)
            + legend_problems_from(criteria@, *answer, i + 1));
        i += 1;
    }
    assert(texts(problems@) =~= texts(start) + legend_problems(*question, *answer));
}

/// Checks the answer to a score question.
pub fn check_score(
    id: &String,
    question: &Json,
    answer: &Json,
    verdicts: &Vec<ScoreVerdict>,
    problems: &mut Vec<String>,
)
    ensures
        texts(final(problems)@) == texts(old(problems)@) + score_problems(
            id@,
            *question,
            *answer,
            verdicts@,
        ),
{
    let ghost start = problems@;
    let n: usize = match question.get("criteria") {
        Some(c) => match c {
            Json::Array(xs) => xs.len(),
            _ => 0,
        },
        None => 0,
    };
    let want = level_list(n);
    let es = match check_probabilities(answer, problems) {
        None => {
            return;
        },
        Some(es) => es,
    };
    let ghost after_p = problems@;
    let got = key_list(es);
    if !same_strings(&got, &want) {
        let mut msg = String::from_str("probability keys are ");
        push_debug_list(&mut msg, &got);
        msg.append(", the levels are ");
        push_debug_list(&mut msg, &want);
        say(problems, msg);
    }
    let ghost after_l = problems@;
    assert(texts(after_l) =~= texts(after_p) + levels_problem(
        es@,
        level_names(level_count(*question)),
    ));
    check_verdict(verdicts, id, problems);
    let ghost after_v = problems@;
    check_legend(question, answer, problems);
    let ghost after_g = problems@;
    check_unit(answer, "confidence", problems);
    assert(texts(problems@) =~= texts(start) + score_problems(id@, *question, *answer, verdicts@));
}

/// The type a question declares, or nothing.
pub open spec fn question_kind(question: Json) -> Seq<char> {
    match question.field("type"@) {
        Some(Json::String(k)) => k@,
        _ => Seq::empty(),
    }
}

/// What the rules say of the answer to a question, before the question's id is put in front:
/// the answer has the question's type, and obeys the rules of that type.
pub open spec fn question_problems(
    id: Seq<char>,
    question: Json,
    answer: Json,
    verdicts: Seq<ScoreVerdict>,
) -> Seq<Seq<char>> {
    let kind = question_kind(question);
    (if answer.field("type"@) matches Some(Json::String(t)) && t@ == kind {
        Seq::empty()
    } else {
        seq!["the answer type is not "@ + kind]
    }) + if kind == "choice"@ {
        choice_problems(question, answer)
    } else if kind == "score"@ {
        score_problems(id, question, answer, verdicts)
    } else if kind == "noul"@ {
        unit_problems(answer, "noul"@)
    } else {
        seq!["unknown question type "@ + debug_str(kind)]
    }
}

/// Each of `ms` with the question's id in front.
pub open spec fn prefixed(id: Seq<char>, ms: Seq<Seq<char>>) -> Seq<Seq<char>> {
    ms.map_values(|m: Seq<char>| id + ": "@ + m)
}

/// What the rules say of the answers to questions `i..`; a question with no answer is left to the
/// order rule.
pub open spec fn questions_problems_from(
    qs: Seq<(String, Json)>,
    answers: Seq<(String, Json)>,
    verdicts: Seq<ScoreVerdict>,
    i: int,
) -> Seq<Seq<char>>
    decreases qs.len() - i,
{
    if 0 <= i < qs.len() {
        (match lookup(answers, qs[i].0@) {
            Some(a) => prefixed(qs[i].0@, question_problems(qs[i].0@, qs[i].1, a, verdicts)),
            None => Seq::empty(),
        }) + questions_problems_from(qs, answers, verdicts, i + 1)
    } else {
        Seq::empty()
    }
}

/// What the order rule says: answers come in the order of the questions, one for each.
pub open spec fn order_problem(qs: Seq<(String, Json)>, answers: Seq<(String, Json)>) -> Seq<
    Seq<char>,
> {
    if keys(answers) != keys(qs) {
        seq![
            "answers are "@ + debug_list(keys(answers)) + " but the questions were "@ + debug_list(
                keys(qs),
            ) + ", in that order"@,
        ]
    } else {
        Seq::empty()
    }
}

/// What the model rule says: the response names the resolved model, never an alias.
pub open spec fn model_problem(response: Json) -> Seq<Seq<char>> {
    match response.field("model"@) {
        Some(Json::String(m)) => if ends_with(m@, "-latest"@) {
            seq!["model "@ + m@ + " is an alias, not the resolved id"@]
        } else {
            Seq::empty()
        },
        _ => seq!["the response has no model"@],
    }
}

/// What `response.pointer("/usage/output_tokens")` holds as a `u64`.
pub open spec fn output_tokens(response: Json) -> Option<u64> {
    match response.field("usage"@) {
        Some(u) => match u.field("output_tokens"@) {
            Some(t) => t.unsigned(),
            None => None,
        },
        None => None,
    }
}

/// What the generation rule says: nothing is ever generated, so `usage.output_tokens` is zero.
pub open spec fn tokens_problem(response: Json) -> Seq<Seq<char>> {
    match output_tokens(response) {
        Some(t) => if t == 0 {
            Seq::empty()
        } else {
            seq![
                "usage.output_tokens is Some("@ + decimal(t as nat)
                    + "), and nothing is ever generated"@,
            ]
        },
        None => seq!["usage.output_tokens is None, and nothing is ever generated"@],
    }
}

/// Every violation of the response rules by `response` to `request`, not only the first, in the
/// order the rules are checked; the score rule as the verdicts decide it.
pub open spec fn response_problems(request: Json, response: Json, verdicts: Seq<ScoreVerdict>) -> Seq<
    Seq<char>,
> {
    match request.field("questions"@) {
        Some(Json::Object(qs)) => match response.field("answers"@) {
            Some(Json::Object(answers)) => order_problem(qs@, answers@) + model_problem(response)
                + tokens_problem(response) + questions_problems_from(
                qs@,
                answers@,
                verdicts,
                0,
            ),
            _ => seq!["the response has no answers object"@],
        },
        _ => seq!["the request has no questions object"@],
    }
}

/// Checks the answer to one question; the problems come without the id in front.
fn check_question(
    id: &String,
    question: &Json,
    answer: &Json,
    verdicts: &Vec<ScoreVerdict>,
) -> (r: Vec<String>)
    ensures
        texts(r@) == question_problems(id@, *question, *answer, verdicts@),
{
    let mut problems: Vec<String> = Vec::new();
    let kind: String = match question.get("type") {
        Some(t) => match t {
            Json::String(k) => k.clone(),
            _ => String::new(),
        },
        None => String::new(),
    };
    assert(kind@ == question_kind(*question));
    let same = match answer.get("type") {
        Some(t) => match t {
            Json::String(k) => *k == kind,
            _ => false,
        },
        None => false,
    };
    if !same {
        let mut msg = String::from_str("the answer type is not ");
        msg.append(kind.as_str());
        say(&mut problems, msg);
    }
    let ghost after_t = problems@;
    if kind == String::from_str("choice") {
        check_choice(question, answer, &mut problems);
    } else if kind == String::from_str("score") {
        check_score(id, question, answer, verdicts, &mut problems);
    } else if kind == String::from_str("noul") {
        check_unit(answer, "noul", &mut problems);
    } else {
        let mut msg = String::from_str("unknown question type ");
        let shown = debug_text(kind.as_str());
        msg.append(shown.as_str());
        say(&mut problems, msg);
    }
    assert(texts(problems@) =~= question_problems(id@, *question, *answer, verdicts@));
    problems
}

/// Appends each of `ms` to `problems`, with `id` and `: ` in front.
pub fn push_prefixed(problems: &mut Vec<String>, id: &String, ms: &Vec<String>)
    ensures
        texts(final(problems)@) == texts(old(problems)@) + prefixed(id@, texts(ms@)),
{
    let ghost start = problems@;
    let mut i: usize = 0;
    while i < ms.len()
        invariant
            i <= ms@.len(),
            texts(problems@) == texts(start) + prefixed(id@, texts(ms@.take(i as int))),
        decreases ms@.len() - i,
    {
        let mut msg = id.clone();
        msg.append(": ");
        msg.append(ms[i].as_str());
        say(problems, msg);
        assert(prefixed(id@, texts(ms@.take(i + 1))) =~= prefixed(id@, texts(ms@.take(i as int))).push(
            id@ + ": "@ + ms@[i as int]@,
        ));
        i += 1;
    }
    assert(ms@.take(ms@.len() as int) =~= ms@);
}

/// Checks one response against its request. Returns every violation, not only the first, because
/// a fixture that is wrong in three ways should say so once. The score rule is as `verdicts` decide
/// it: the first verdict for a question's id says what the rule found of its answer.
pub fn check(request: &Json, response: &Json, verdicts: &Vec<ScoreVerdict>) -> (r: Vec<String>)
    ensures
        texts(r@) == response_problems(*request, *response, verdicts@),
{
    let questions = match request.get("questions") {
        Some(q) => match q {
            Json::Object(qs) => qs,
            _ => {
                let r = vec![String::from_str("the request has no questions object")];
                assert(texts(r@) =~= response_problems(*request, *response, verdicts@));
                return r;
            },
        },
        None => {
            let r = vec![String::from_str("the request has no questions object")];
            assert(texts(r@) =~= response_problems(*request, *response, verdicts@));
            return r;
        },
    };
    let answers = match response.get("answers") {
        Some(a) => match a {
            Json::Object(es) => es,
            _ => {
                let r = vec![String::from_str("the response has no answers object")];
                assert(texts(r@) =~= response_problems(*request, *response, verdicts@));
                return r;
            },
        },
        None => {
            let r = vec![String::from_str("the response has no answers object")];
            assert(texts(r@) =~= response_problems(*request, *response, verdicts@));
            return r;
        },
    };
    let mut problems: Vec<String> = Vec::new();
    let asked = key_list(questions);
    let answered = key_list(answers);
    if !same_strings(&asked, &answered) {
        let mut msg = String::from_str("answers are ");
        push_debug_list(&mut msg, &answered);
        msg.append(" but the questions were ");
        push_debug_list(&mut msg, &asked);
        msg.append(", in that order");
        say(&mut problems, msg);
    }
    assert(texts(problems@) =~= order_problem(questions@, answers@));
    let ghost after_o = problems@;
    match response.get("model") {
        Some(m) => match m {
            Json::String(name) => {
                let chars = chars_of(name.as_str());
                let suffix = chars_of("-latest");
                if ends_with_exec(&chars, &suffix) {
                    let mut msg = String::from_str("model ");
                    msg.append(name.as_str());
                    msg.append(" is an alias, not the resolved id");
                    say(&mut problems, msg);
                }
            },
            _ => {
                say(&mut problems, String::from_str("the response has no model"));
            },
        },
        None => {
            say(&mut problems, String::from_str("the response has no model"));
        },
    }
    assert(texts(problems@) =~= texts(after_o) + model_problem(*response));
    let ghost after_m = problems@;
    let tokens: Option<u64> = match response.get("usage") {
        Some(u) => match u.get("output_tokens") {
            Some(t) => t.as_u64(),
            None => None,
        },
        None => None,
    };
    match tokens {
        Some(t) => {
            if t != 0 {
                let mut msg = String::from_str("usage.output_tokens is Some(");
                push_decimal(&mut msg, t as u128);
                msg.append("), and nothing is ever generated");
                say(&mut problems, msg);
            }
        },
        None => {
            say(
                &mut problems,
                String::from_str("usage.output_tokens is None, and nothing is ever generated"),
            );
        },
    }
    assert(texts(problems@) =~= texts(after_m) + tokens_problem(*response));
    let ghost start = problems@;
    let mut i: usize = 0;
    while i < questions.len()
        invariant
            i <= questions@.len(),
            texts(start) + questions_problems_from(questions@, answers@, verdicts@, 0) == texts(
                problems@,
            ) + questions_problems_from(questions@, answers@, verdicts@, i as int),
        decreases questions@.len() - i,
    {
        let ghost before = problems@;
        match find_member(answers, &questions[i].0) {
            None => {},
            Some(j) => {
                let found = check_question(&questions[i].0, &questions[i].1, &answers[j].1, verdicts);
                push_prefixed(&mut problems, &questions[i].0, &found);
            },
        }
        assert(texts(start) + questions_problems_from(questions@, answers@, verdicts@, 0) =~= texts(
            problems@,
        ) + questions_problems_from(questions@, answers@, verdicts@, i + 1));
        i += 1;
    }
    assert(texts(problems@) =~= response_problems(*request, *response, verdicts@));
    problems
}

/// The members of the object that `j` holds under `key`, if it holds one.
pub open spec fn members_of(j: Json, key: Seq<char>) -> Option<Seq<(String, Json)>> {
    match j.field(key) {
        Some(Json::Object(es)) => Some(es@),
        _ => None,
    }
}

/// Answers that are not in the order of the questions, or not one for each, are the first thing
/// the rules report.
pub proof fn law_order_reported_first(request: Json, response: Json, verdicts: Seq<ScoreVerdict>)
    requires
        members_of(request, "questions"@) is Some,
        members_of(response, "answers"@) is Some,
        keys(members_of(request, "questions"@)->Some_0) != keys(
            members_of(response, "answers"@)->Some_0,
        ),
    ensures
        response_problems(request, response, verdicts).len() > 0,
        response_problems(request, response, verdicts)[0] == "answers are "@ + debug_list(
            keys(members_of(response, "answers"@)->Some_0),
        ) + " but the questions were "@ + debug_list(keys(members_of(request, "questions"@)->Some_0))
            + ", in that order"@,
{
    let qs = members_of(request, "questions"@)->Some_0;
    let answers = members_of(response, "answers"@)->Some_0;
    let all = response_problems(request, response, verdicts);
    assert(all == order_problem(qs, answers) + model_problem(response) + tokens_problem(response)
        + questions_problems_from(qs, answers, verdicts, 0));
}

/// A response that names an alias in place of the resolved model is reported, whatever else it
/// gets wrong.
pub proof fn law_alias_reported(request: Json, response: Json, verdicts: Seq<ScoreVerdict>)
    requires
        members_of(request, "questions"@) is Some,
        members_of(response, "answers"@) is Some,
        response.field("model"@) matches Some(Json::String(m)) && ends_with(m@, "-latest"@),
    ensures
        response.field("model"@) matches Some(Json::String(m)) && response_problems(
            request,
            response,
            verdicts,
        ).contains("model "@ + m@ + " is an alias, not the resolved id"@),
{
    let qs = members_of(request, "questions"@)->Some_0;
    let answers = members_of(response, "answers"@)->Some_0;
    let all = response_problems(request, response, verdicts);
    let o = order_problem(qs, answers);
    assert(all == o + model_problem(response) + tokens_problem(response)
        + questions_problems_from(qs, answers, verdicts, 0));
    assert(all[o.len() as int] == model_problem(response)[0]);
}

/// A response that says it generated tokens, or does not say how many, is reported, whatever else
/// it gets wrong.
pub proof fn law_generation_reported(request: Json, response: Json, verdicts: Seq<ScoreVerdict>)
    requires
        members_of(request, "questions"@) is Some,
        members_of(response, "answers"@) is Some,
        output_tokens(response) != Some(0u64),
    ensures
        response_problems(request, response, verdicts).contains(tokens_problem(response)[0]),
        tokens_problem(response).len() == 1,
{
    let qs = members_of(request, "questions"@)->Some_0;
    let answers = members_of(response, "answers"@)->Some_0;
    let all = response_problems(request, response, verdicts);
    let before = order_problem(qs, answers) + model_problem(response);
    assert(all == before + tokens_problem(response) + questions_problems_from(
        qs,
        answers,
        verdicts,
        0,
    ));
    assert(all[before.len() as int] == tokens_problem(response)[0]);
}

proof fn lemma_verdicts_only_score(
    qs: Seq<(String, Json)>,
    answers: Seq<(String, Json)>,
    v1: Seq<ScoreVerdict>,
    v2: Seq<ScoreVerdict>,
    i: int,
)
    requires
        0 <= i,
        forall|j: int| 0 <= j < qs.len() ==> question_kind((#[trigger] qs[j]).1) != "score"@,
    ensures
        questions_problems_from(qs, answers, v1, i) == questions_problems_from(qs, answers, v2, i),
    decreases qs.len() - i,
{
    if i < qs.len() {
        lemma_verdicts_only_score(qs, answers, v1, v2, i + 1);
        assert(question_kind(qs[i].1) != "score"@);
    }
}

/// The verdicts on scores decide nothing but the score rule: where no question is a score
/// question, any verdicts give the same problems.
pub proof fn law_verdicts_only_score(
    request: Json,
    response: Json,
    v1: Seq<ScoreVerdict>,
    v2: Seq<ScoreVerdict>,
)
    requires
        members_of(request, "questions"@) matches Some(qs) && forall|j: int|
            0 <= j < qs.len() ==> question_kind((#[trigger] qs[j]).1) != "score"@,
    ensures
        response_problems(request, response, v1) == response_problems(request, response, v2),
{
    let qs = members_of(request, "questions"@)->Some_0;
    if let Some(answers) = members_of(response, "answers"@) {
        lemma_verdicts_only_score(qs, answers, v1, v2, 0);
    }
}

proof fn lemma_contains_right(a: Seq<Seq<char>>, b: Seq<Seq<char>>, x: Seq<char>)
    requires
        b.contains(x),
    ensures
        (a + b).contains(x),
{
    let j = choose|j: int| 0 <= j < b.len() && b[j] == x;
    assert((a + b)[a.len() + j] == x);
}

proof fn lemma_contains_left(a: Seq<Seq<char>>, b: Seq<Seq<char>>, x: Seq<char>)
    requires
        a.contains(x),
    ensures
        (a + b).contains(x),
{
    let j = choose|j: int| 0 <= j < a.len() && a[j] == x;
    assert((a + b)[j] == x);
}

proof fn lemma_questions_include(
    qs: Seq<(String, Json)>,
    answers: Seq<(String, Json)>,
    verdicts: Seq<ScoreVerdict>,
    i: int,
    k: int,
    m: Seq<char>,
)
    requires
        0 <= i <= k < qs.len(),
        lookup(answers, qs[k].0@) is Some,
        question_problems(qs[k].0@, qs[k].1, lookup(answers, qs[k].0@)->Some_0, verdicts).contains(
            m,
        ),
    ensures
        questions_problems_from(qs, answers, verdicts, i).contains(qs[k].0@ + ": "@ + m),
    decreases k - i,
{
    let here = match lookup(answers, qs[i].0@) {
        Some(a) => prefixed(qs[i].0@, question_problems(qs[i].0@, qs[i].1, a, verdicts)),
        None => Seq::empty(),
    };
    assert(questions_problems_from(qs, answers, verdicts, i) == here + questions_problems_from(
        qs,
        answers,
        verdicts,
        i + 1,
    ));
    if i == k {
        let ms = question_problems(qs[k].0@, qs[k].1, lookup(answers, qs[k].0@)->Some_0, verdicts);
        let j = choose|j: int| 0 <= j < ms.len() && ms[j] == m;
        assert(here[j] == qs[k].0@ + ": "@ + m);
        lemma_contains_left(here, questions_problems_from(qs, answers, verdicts, i + 1), qs[k].0@
            + ": "@ + m);
    } else {
        lemma_questions_include(qs, answers, verdicts, i + 1, k, m);
        lemma_contains_right(here, questions_problems_from(qs, answers, verdicts, i + 1), qs[k].0@
            + ": "@ + m);
    }
}

/// Whether a member is a probability: a number within `[0, 1]`.
pub open spec fn is_probability(v: Json) -> bool {
    v matches Json::Number(n) && n.unit
}

proof fn lemma_entries_pass(es: Seq<(String, Json)>, i: int)
    requires
        0 <= i <= es.len(),
    ensures
        probability_entry_problems(es, i).len() == 0 <==> forall|j: int|
            i <= j < es.len() ==> is_probability(#[trigger] es[j].1),
    decreases es.len() - i,
{
    if i < es.len() {
        lemma_entries_pass(es, i + 1);
    }
}

/// An answer's probabilities pass exactly when every one is a number within `[0, 1]` and, rounded
/// to hundredths, they sum to exactly one hundred.
pub proof fn law_probabilities_pass(answer: Json)
    requires
        members_of(answer, "probabilities"@) is Some,
    ensures
        probability_problems(answer).0.len() == 0 <==> ({
            let es = members_of(answer, "probabilities"@)->Some_0;
            &&& forall|j: int| 0 <= j < es.len() ==> is_probability(#[trigger] es[j].1)
            &&& hundredths_from(es, 0) == 100
        }),
{
    let es = members_of(answer, "probabilities"@)->Some_0;
    lemma_entries_pass(es, 0);
}

proof fn lemma_hundredths_bounded(es: Seq<(String, Json)>, i: int)
    requires
        0 <= i <= es.len(),
        forall|j: int|
            0 <= j < es.len() ==> ((#[trigger] es[j]).1 matches Json::Number(n) ==> n.valid()),
    ensures
        0 <= hundredths_from(es, i) <= 100 * (es.len() - i),
    decreases es.len() - i,
{
    if i < es.len() {
        lemma_hundredths_bounded(es, i + 1);
        assert((es[i].1 matches Json::Number(n) ==> n.valid()));
    }
}

/// The hundredths of `n` probabilities sum to between none and `100 * n`: one alone cannot be
/// over one hundred, and two or more can.
pub proof fn law_hundredths_bounded(es: Seq<(String, Json)>)
    requires
        forall|j: int|
            0 <= j < es.len() ==> ((#[trigger] es[j]).1 matches Json::Number(n) ==> n.valid()),
    ensures
        0 <= hundredths_from(es, 0) <= 100 * es.len(),
{
    lemma_hundredths_bounded(es, 0);
}

/// The id of question `k` of a request.
pub open spec fn question_id(request: Json, k: int) -> Seq<char> {
    members_of(request, "questions"@)->Some_0[k].0@
}

/// Question `k` of a request.
pub open spec fn question_at(request: Json, k: int) -> Json {
    members_of(request, "questions"@)->Some_0[k].1
}

/// The answer that `response` gives to question `id`.
pub open spec fn response_lookup(response: Json, id: Seq<char>) -> Option<Json> {
    match members_of(response, "answers"@) {
        Some(answers) => lookup(answers, id),
        None => None,
    }
}

/// Every problem the rules find with the answer to an answered question is reported, with the
/// question's id in front.
pub proof fn law_question_problems_reported(
    request: Json,
    response: Json,
    verdicts: Seq<ScoreVerdict>,
    k: int,
    m: Seq<char>,
)
    requires
        members_of(request, "questions"@) is Some,
        members_of(response, "answers"@) is Some,
        0 <= k < members_of(request, "questions"@)->Some_0.len(),
        response_lookup(response, question_id(request, k)) is Some,
        question_problems(
            question_id(request, k),
            question_at(request, k),
            response_lookup(response, question_id(request, k))->Some_0,
            verdicts,
        ).contains(m),
    ensures
        response_problems(request, response, verdicts).contains(
            question_id(request, k) + ": "@ + m,
        ),
{
    let qs = members_of(request, "questions"@)->Some_0;
    let answers = members_of(response, "answers"@)->Some_0;
    lemma_questions_include(qs, answers, verdicts, 0, k, m);
    let before = order_problem(qs, answers) + model_problem(response) + tokens_problem(response);
    assert(response_problems(request, response, verdicts) == before + questions_problems_from(
        qs,
        answers,
        verdicts,
        0,
    ));
    lemma_contains_right(before, questions_problems_from(qs, answers, verdicts, 0), qs[k].0@
        + ": "@ + m);
}

/// Rounded to hundredths, the probabilities of an answer to a choice question sum to exactly one
/// hundred, or the sum is reported.
pub proof fn law_sum_reported(request: Json, response: Json, verdicts: Seq<ScoreVerdict>, k: int)
    requires
        members_of(request, "questions"@) is Some,
        members_of(response, "answers"@) is Some,
        0 <= k < members_of(request, "questions"@)->Some_0.len(),
        response_lookup(response, question_id(request, k)) is Some,
        question_kind(question_at(request, k)) == "choice"@,
        members_of(response_lookup(response, question_id(request, k))->Some_0, "probabilities"@) is Some,
        hundredths_from(
            members_of(
                response_lookup(response, question_id(request, k))->Some_0,
                "probabilities"@,
            )->Some_0,
            0,
        ) != 100,
    ensures
        response_problems(request, response, verdicts).contains(
            question_id(request, k) + ": "@ + ("probabilities sum to "@ + signed_decimal(
                hundredths_from(
                    members_of(
                        response_lookup(response, question_id(request, k))->Some_0,
                        "probabilities"@,
                    )->Some_0,
                    0,
                ),
            ) + " hundredths, not exactly 100"@),
        ),
{
    let id = question_id(request, k);
    let q = question_at(request, k);
    let a = response_lookup(response, id)->Some_0;
    let es = members_of(a, "probabilities"@)->Some_0;
    let m = "probabilities sum to "@ + signed_decimal(hundredths_from(es, 0))
        + " hundredths, not exactly 100"@;
    let found = probability_problems(a).0;
    let entries = probability_entry_problems(es, 0);
    assert(found == entries + seq![m]);
    assert(found[entries.len() as int] == m);
    let kind = question_kind(q);
    let typed: Seq<Seq<char>> = if a.field("type"@) matches Some(Json::String(t)) && t@ == kind {
        Seq::empty()
    } else {
        seq!["the answer type is not "@ + kind]
    };
    let rest = labels_problem(es, labels(q)) + argmax_problem(a, es) + unit_problems(
        a,
        "confidence"@,
    );
    assert(choice_problems(q, a) == found + rest);
    lemma_contains_left(found, rest, m);
    assert(question_problems(id, q, a, verdicts) == typed + choice_problems(q, a));
    lemma_contains_right(typed, choice_problems(q, a), m);
    law_question_problems_reported(request, response, verdicts, k, m);
}

/// The answer that `response` gives to question `k` of `request`.
pub open spec fn answer_at(request: Json, response: Json, k: int) -> Json {
    response_lookup(response, question_id(request, k))->Some_0
}

/// What a choice answer is told when its choice is not an argmax.
pub open spec fn not_argmax(c: Seq<char>) -> Seq<char> {
    "choice Some("@ + debug_str(c) + ") is not an argmax of the probabilities"@
}

/// Whether the probability of `c` is a number, and probability `j` a larger one.
pub open spec fn exceeds(es: Seq<(String, Json)>, c: Seq<char>, j: int) -> bool {
    match (lookup(es, c), es[j].1) {
        (Some(Json::Number(x)), Json::Number(y)) => x.order < y.order,
        _ => false,
    }
}

/// A choice whose probability some other probability exceeds, wherever that one stands among the
/// probabilities, is reported as not an argmax.
pub proof fn law_argmax_reported(
    request: Json,
    response: Json,
    verdicts: Seq<ScoreVerdict>,
    k: int,
    c: Seq<char>,
    j: int,
)
    requires
        members_of(request, "questions"@) is Some,
        members_of(response, "answers"@) is Some,
        0 <= k < members_of(request, "questions"@)->Some_0.len(),
        response_lookup(response, question_id(request, k)) is Some,
        question_kind(question_at(request, k)) == "choice"@,
        answer_at(request, response, k).field("choice"@) matches Some(Json::String(s)) && s@ == c,
        members_of(answer_at(request, response, k), "probabilities"@) is Some,
        0 <= j < members_of(answer_at(request, response, k), "probabilities"@)->Some_0.len(),
        exceeds(members_of(answer_at(request, response, k), "probabilities"@)->Some_0, c, j),
    ensures
        response_problems(request, response, verdicts).contains(
            question_id(request, k) + ": "@ + not_argmax(c),
        ),
{
    let id = question_id(request, k);
    let q = question_at(request, k);
    let a = answer_at(request, response, k);
    let es = members_of(a, "probabilities"@)->Some_0;
    let m = not_argmax(c);
    assert(!is_argmax(es, c));
    assert(argmax_problem(a, es) == seq![m]);
    let found = probability_problems(a).0;
    assert(probability_problems(a).1 == Some(es));
    let before = found + labels_problem(es, labels(q));
    let after = unit_problems(a, "confidence"@);
    assert(choice_problems(q, a) == before + argmax_problem(a, es) + after);
    assert((before + argmax_problem(a, es))[before.len() as int] == m);
    lemma_contains_left(before + argmax_problem(a, es), after, m);
    let typed: Seq<Seq<char>> = if a.field("type"@) matches Some(Json::String(t)) && t@ == "choice"@ {
        Seq::empty()
    } else {
        seq!["the answer type is not "@ + "choice"@]
    };
    assert(question_problems(id, q, a, verdicts) == typed + choice_problems(q, a));
    lemma_contains_right(typed, choice_problems(q, a), m);
    law_question_problems_reported(request, response, verdicts, k, m);
}

/// Two JSON strings are equal exactly when they have the same characters.
pub proof fn law_strings_equal_exactly(x: String, y: String)
    ensures
        json_eq(Json::String(x), Json::String(y)) <==> x@ == y@,
{
}

/// What a score answer is told when its legend does not echo criterion `i`.
pub open spec fn no_echo(i: nat) -> Seq<char> {
    "legend "@ + decimal(i) + " does not echo the criterion exactly as sent"@
}

proof fn lemma_legend_reported(criteria: Seq<Json>, answer: Json, s: int, i: int)
    requires
        0 <= s <= i < criteria.len(),
        criteria[i] is String,
        !(legend_at(answer, i as nat) matches Some(Json::String(l)) && l@ == criteria[i]->String_0@),
    ensures
        legend_problems_from(criteria, answer, s).contains(no_echo(i as nat)),
    decreases i - s,
{
    let here: Seq<Seq<char>> = match legend_at(answer, s as nat) {
        Some(v) => if json_eq(v, criteria[s]) {
            Seq::empty()
        } else {
            seq![no_echo(s as nat)]
        },
        None => seq![no_echo(s as nat)],
    };
    assert(legend_problems_from(criteria, answer, s) == here + legend_problems_from(
        criteria,
        answer,
        s + 1,
    ));
    if s < i {
        lemma_legend_reported(criteria, answer, s + 1, i);
        lemma_contains_right(here, legend_problems_from(criteria, answer, s + 1), no_echo(i as nat));
    } else {
        assert(here == seq![no_echo(i as nat)]);
        assert(here[0] == no_echo(i as nat));
        lemma_contains_left(here, legend_problems_from(criteria, answer, s + 1), no_echo(i as nat));
    }
}

/// Criterion `i` of a question, where its criteria are an array and that item is a string.
pub open spec fn criterion_at(question: Json, i: int) -> Option<Seq<char>> {
    match question.field("criteria"@) {
        Some(Json::Array(xs)) => if 0 <= i < xs@.len() {
            match xs@[i] {
                Json::String(t) => Some(t@),
                _ => None,
            }
        } else {
            None
        },
        _ => None,
    }
}

/// A score answer whose legend does not give criterion `i` back as the same string (a different
/// string, another kind of value, or nothing) is reported.
pub proof fn law_legend_reported(
    request: Json,
    response: Json,
    verdicts: Seq<ScoreVerdict>,
    k: int,
    i: int,
)
    requires
        members_of(request, "questions"@) is Some,
        members_of(response, "answers"@) is Some,
        0 <= k < members_of(request, "questions"@)->Some_0.len(),
        response_lookup(response, question_id(request, k)) is Some,
        question_kind(question_at(request, k)) == "score"@,
        members_of(answer_at(request, response, k), "probabilities"@) is Some,
        criterion_at(question_at(request, k), i) matches Some(t) && !(legend_at(
            answer_at(request, response, k),
            i as nat,
        ) matches Some(Json::String(l)) && l@ == t),
    ensures
        response_problems(request, response, verdicts).contains(
            question_id(request, k) + ": "@ + no_echo(i as nat),
        ),
{
    let id = question_id(request, k);
    let q = question_at(request, k);
    let a = answer_at(request, response, k);
    let es = members_of(a, "probabilities"@)->Some_0;
    let xs = q.field("criteria"@)->Some_0->Array_0@;
    let m = no_echo(i as nat);
    lemma_legend_reported(xs, a, 0, i);
    assert(legend_problems(q, a) == legend_problems_from(xs, a, 0));
    assert(probability_problems(a).1 == Some(es));
    let before = probability_problems(a).0 + levels_problem(es, level_names(level_count(q)))
        + verdict_problems(verdicts, id);
    let after = unit_problems(a, "confidence"@);
    assert(score_problems(id, q, a, verdicts) == before + legend_problems(q, a) + after);
    lemma_contains_right(before, legend_problems(q, a), m);
    lemma_contains_left(before + legend_problems(q, a), after, m);
    let typed: Seq<Seq<char>> = if a.field("type"@) matches Some(Json::String(t)) && t@ == "score"@ {
        Seq::empty()
    } else {
        seq!["the answer type is not "@ + "score"@]
    };
    reveal_strlit("score");
    reveal_strlit("choice");
    assert("score"@[0] != "choice"@[0]);
    assert(question_problems(id, q, a, verdicts) == typed + score_problems(id, q, a, verdicts));
    lemma_contains_right(typed, score_problems(id, q, a, verdicts), m);
    law_question_problems_reported(request, response, verdicts, k, m);
}


/// A problem with the answer to a question of a known kind is reported, with the question's id in
/// front.
proof fn lemma_kind_problem_reported(
    request: Json,
    response: Json,
    verdicts: Seq<ScoreVerdict>,
    k: int,
    m: Seq<char>,
)
    requires
        members_of(request, "questions"@) is Some,
        members_of(response, "answers"@) is Some,
        0 <= k < members_of(request, "questions"@)->Some_0.len(),
        response_lookup(response, question_id(request, k)) is Some,
        question_kind(question_at(request, k)) == "choice"@ ==> choice_problems(
            question_at(request, k),
            answer_at(request, response, k),
        ).contains(m),
        question_kind(question_at(request, k)) == "score"@ ==> score_problems(
            question_id(request, k),
            question_at(request, k),
            answer_at(request, response, k),
            verdicts,
        ).contains(m),
        question_kind(question_at(request, k)) == "choice"@ || question_kind(question_at(request, k))
            == "score"@,
    ensures
        response_problems(request, response, verdicts).contains(question_id(request, k) + ": "@ + m),
{
    let id = question_id(request, k);
    let q = question_at(request, k);
    let a = answer_at(request, response, k);
    let kind = question_kind(q);
    let typed: Seq<Seq<char>> = if a.field("type"@) matches Some(Json::String(t)) && t@ == kind {
        Seq::empty()
    } else {
        seq!["the answer type is not "@ + kind]
    };
    if kind == "choice"@ {
        assert(question_problems(id, q, a, verdicts) == typed + choice_problems(q, a));
        lemma_contains_right(typed, choice_problems(q, a), m);
    } else {
        reveal_strlit("score");
        reveal_strlit("choice");
        assert("score"@[0] != "choice"@[0]);
        assert(question_problems(id, q, a, verdicts) == typed + score_problems(id, q, a, verdicts));
        lemma_contains_right(typed, score_problems(id, q, a, verdicts), m);
    }
    law_question_problems_reported(request, response, verdicts, k, m);
}

/// An answer whose type is not its question's is reported.
pub proof fn law_type_reported(request: Json, response: Json, verdicts: Seq<ScoreVerdict>, k: int)
    requires
        members_of(request, "questions"@) is Some,
        members_of(response, "answers"@) is Some,
        0 <= k < members_of(request, "questions"@)->Some_0.len(),
        response_lookup(response, question_id(request, k)) is Some,
        !(answer_at(request, response, k).field("type"@) matches Some(Json::String(t)) && t@
            == question_kind(question_at(request, k))),
    ensures
        response_problems(request, response, verdicts).contains(
            question_id(request, k) + ": "@ + ("the answer type is not "@ + question_kind(
                question_at(request, k),
            )),
        ),
{
    let id = question_id(request, k);
    let q = question_at(request, k);
    let a = answer_at(request, response, k);
    let m = "the answer type is not "@ + question_kind(q);
    let typed = seq![m];
    let rest = if question_kind(q) == "choice"@ {
        choice_problems(q, a)
    } else if question_kind(q) == "score"@ {
        score_problems(id, q, a, verdicts)
    } else if question_kind(q) == "noul"@ {
        unit_problems(a, "noul"@)
    } else {
        seq!["unknown question type "@ + debug_str(question_kind(q))]
    };
    assert(question_problems(id, q, a, verdicts) == typed + rest);
    assert(typed[0] == m);
    lemma_contains_left(typed, rest, m);
    law_question_problems_reported(request, response, verdicts, k, m);
}

/// The requirements shared by the laws on one answered choice or score question with an object of
/// probabilities.
pub open spec fn answered_with_probabilities(request: Json, response: Json, k: int) -> bool {
    &&& members_of(request, "questions"@) is Some
    &&& members_of(response, "answers"@) is Some
    &&& 0 <= k < members_of(request, "questions"@)->Some_0.len()
    &&& response_lookup(response, question_id(request, k)) is Some
    &&& question_kind(question_at(request, k)) == "choice"@ || question_kind(question_at(request, k))
        == "score"@
    &&& members_of(answer_at(request, response, k), "probabilities"@) is Some
}

/// The probabilities of the answer to question `k`.
pub open spec fn probabilities_at(request: Json, response: Json, k: int) -> Seq<(String, Json)> {
    members_of(answer_at(request, response, k), "probabilities"@)->Some_0
}

/// A probability that is not a number within `[0, 1]` is reported, wherever it stands.
pub proof fn law_probability_reported(
    request: Json,
    response: Json,
    verdicts: Seq<ScoreVerdict>,
    k: int,
    j: int,
)
    requires
        answered_with_probabilities(request, response, k),
        0 <= j < probabilities_at(request, response, k).len(),
        !(probabilities_at(request, response, k)[j].1 matches Json::Number(n) && n.unit),
    ensures
        response_problems(request, response, verdicts).contains(
            question_id(request, k) + ": "@ + ("probability for "@ + probabilities_at(
                request,
                response,
                k,
            )[j].0@ + " is "@ + json_text(probabilities_at(request, response, k)[j].1)
                + ", not a finite value in [0, 1]"@),
        ),
{
    let id = question_id(request, k);
    let q = question_at(request, k);
    let a = answer_at(request, response, k);
    let es = probabilities_at(request, response, k);
    let m = "probability for "@ + es[j].0@ + " is "@ + json_text(es[j].1)
        + ", not a finite value in [0, 1]"@;
    lemma_entry_reported(es, 0, j);
    let entries = probability_entry_problems(es, 0);
    let sum: Seq<Seq<char>> = if hundredths_from(es, 0) != 100 {
        seq![
            "probabilities sum to "@ + signed_decimal(hundredths_from(es, 0))
                + " hundredths, not exactly 100"@,
        ]
    } else {
        Seq::empty()
    };
    assert(probability_problems(a).0 == entries + sum);
    lemma_contains_left(entries, sum, m);
    let found = probability_problems(a).0;
    assert(probability_problems(a).1 == Some(es));
    let after_c = labels_problem(es, labels(q)) + argmax_problem(a, es) + unit_problems(
        a,
        "confidence"@,
    );
    assert(choice_problems(q, a) =~= found + after_c);
    lemma_contains_left(found, after_c, m);
    let after_s = levels_problem(es, level_names(level_count(q))) + verdict_problems(verdicts, id)
        + legend_problems(q, a) + unit_problems(a, "confidence"@);
    assert(score_problems(id, q, a, verdicts) =~= found + after_s);
    lemma_contains_left(found, after_s, m);
    lemma_kind_problem_reported(request, response, verdicts, k, m);
}

proof fn lemma_entry_reported(es: Seq<(String, Json)>, s: int, j: int)
    requires
        0 <= s <= j < es.len(),
        !(es[j].1 matches Json::Number(n) && n.unit),
    ensures
        probability_entry_problems(es, s).contains(
            "probability for "@ + es[j].0@ + " is "@ + json_text(es[j].1)
                + ", not a finite value in [0, 1]"@,
        ),
    decreases j - s,
{
    let m = "probability for "@ + es[j].0@ + " is "@ + json_text(es[j].1)
        + ", not a finite value in [0, 1]"@;
    let here: Seq<Seq<char>> = if es[s].1 matches Json::Number(n) && n.unit {
        Seq::empty()
    } else {
        seq![
            "probability for "@ + es[s].0@ + " is "@ + json_text(es[s].1)
                + ", not a finite value in [0, 1]"@,
        ]
    };
    assert(probability_entry_problems(es, s) == here + probability_entry_problems(es, s + 1));
    if s < j {
        lemma_entry_reported(es, s + 1, j);
        lemma_contains_right(here, probability_entry_problems(es, s + 1), m);
    } else {
        assert(here[0] == m);
        lemma_contains_left(here, probability_entry_problems(es, s + 1), m);
    }
}

/// A confidence that is not a number within `[0, 1]` is reported, with what it was.
pub proof fn law_confidence_reported(
    request: Json,
    response: Json,
    verdicts: Seq<ScoreVerdict>,
    k: int,
)
    requires
        answered_with_probabilities(request, response, k),
        !(answer_at(request, response, k).field("confidence"@) matches Some(Json::Number(n))
            && n.unit),
    ensures
        response_problems(request, response, verdicts).contains(
            question_id(request, k) + ": "@ + match answer_at(request, response, k).field(
                "confidence"@,
            ) {
                Some(Json::Number(n)) => "confidence Some("@ + n.shown@ + ") is not in [0, 1]"@,
                _ => "confidence None is not in [0, 1]"@,
            },
        ),
{
    let id = question_id(request, k);
    let q = question_at(request, k);
    let a = answer_at(request, response, k);
    let es = probabilities_at(request, response, k);
    let u = unit_problems(a, "confidence"@);
    let m = u[0];
    assert(u == seq![m]);
    reveal_strlit("confidence");
    reveal_strlit(" Some(");
    reveal_strlit("confidence Some(");
    reveal_strlit(" None is not in [0, 1]");
    reveal_strlit("confidence None is not in [0, 1]");
    match a.field("confidence"@) {
        Some(Json::Number(n)) => {
            assert(m =~= "confidence Some("@ + n.shown@ + ") is not in [0, 1]"@);
        },
        _ => {
            assert(m =~= "confidence None is not in [0, 1]"@);
        },
    }
    lemma_contains_right(Seq::empty(), u, m);
    assert(Seq::<Seq<char>>::empty() + u =~= u);
    assert(probability_problems(a).1 == Some(es));
    let before_c = probability_problems(a).0 + labels_problem(es, labels(q)) + argmax_problem(a, es);
    assert(choice_problems(q, a) == before_c + u);
    lemma_contains_right(before_c, u, m);
    let before_s = probability_problems(a).0 + levels_problem(es, level_names(level_count(q)))
        + verdict_problems(verdicts, id) + legend_problems(q, a);
    assert(score_problems(id, q, a, verdicts) == before_s + u);
    lemma_contains_right(before_s, u, m);
    lemma_kind_problem_reported(request, response, verdicts, k, m);
}

/// Probability keys that are not the labels a choice question offers, in order, are reported.
pub proof fn law_labels_reported(
    request: Json,
    response: Json,
    verdicts: Seq<ScoreVerdict>,
    k: int,
)
    requires
        answered_with_probabilities(request, response, k),
        question_kind(question_at(request, k)) == "choice"@,
        keys(probabilities_at(request, response, k)) != labels(question_at(request, k)),
    ensures
        response_problems(request, response, verdicts).contains(
            question_id(request, k) + ": "@ + ("probability keys are "@ + debug_list(
                keys(probabilities_at(request, response, k)),
            ) + ", the offered labels are "@ + debug_list(labels(question_at(request, k)))),
        ),
{
    let q = question_at(request, k);
    let a = answer_at(request, response, k);
    let es = probabilities_at(request, response, k);
    let l = labels_problem(es, labels(q));
    let m = l[0];
    assert(probability_problems(a).1 == Some(es));
    let before = probability_problems(a).0;
    let after = argmax_problem(a, es) + unit_problems(a, "confidence"@);
    assert(choice_problems(q, a) =~= before + l + after);
    assert((before + l)[before.len() as int] == m);
    lemma_contains_left(before + l, after, m);
    reveal_strlit("score");
    reveal_strlit("choice");
    assert("score"@[0] != "choice"@[0]);
    lemma_kind_problem_reported(request, response, verdicts, k, m);
}

/// Probability keys that are not the levels `0..n` of a score question with `n` criteria, in
/// order, are reported.
pub proof fn law_levels_reported(
    request: Json,
    response: Json,
    verdicts: Seq<ScoreVerdict>,
    k: int,
)
    requires
        answered_with_probabilities(request, response, k),
        question_kind(question_at(request, k)) == "score"@,
        keys(probabilities_at(request, response, k)) != Seq::new(
            level_count(question_at(request, k)),
            |i: int| decimal(i as nat),
        ),
    ensures
        response_problems(request, response, verdicts).contains(
            question_id(request, k) + ": "@ + ("probability keys are "@ + debug_list(
                keys(probabilities_at(request, response, k)),
            ) + ", the levels are "@ + debug_list(
                Seq::new(level_count(question_at(request, k)), |i: int| decimal(i as nat)),
            )),
        ),
{
    let id = question_id(request, k);
    let q = question_at(request, k);
    let a = answer_at(request, response, k);
    let es = probabilities_at(request, response, k);
    assert(level_names(level_count(q)) == Seq::new(level_count(q), |i: int| decimal(i as nat)));
    let l = levels_problem(es, level_names(level_count(q)));
    let m = l[0];
    assert(probability_problems(a).1 == Some(es));
    let before = probability_problems(a).0;
    let after = verdict_problems(verdicts, id) + legend_problems(q, a) + unit_problems(
        a,
        "confidence"@,
    );
    assert(score_problems(id, q, a, verdicts) =~= before + l + after);
    assert((before + l)[before.len() as int] == m);
    lemma_contains_left(before + l, after, m);
    reveal_strlit("score");
    reveal_strlit("choice");
    assert("score"@[0] != "choice"@[0]);
    lemma_kind_problem_reported(request, response, verdicts, k, m);
}

proof fn lemma_verdict_found(vs: Seq<ScoreVerdict>, id: Seq<char>, j: int)
    requires
        0 <= j < vs.len(),
        vs[j].id@ == id,
        vs[j].problem is Some,
        forall|i: int| 0 <= i < j ==> (#[trigger] vs[i]).id@ != id,
    ensures
        verdict_problems(vs, id) == seq![vs[j].problem->Some_0@],
    decreases j,
{
    if j > 0 {
        assert forall|i: int| 0 <= i < j - 1 implies (#[trigger] vs.drop_first()[i]).id@ != id by {
            assert(vs.drop_first()[i] == vs[i + 1]);
        }
        lemma_verdict_found(vs.drop_first(), id, j - 1);
    }
}

/// The caller's verdict on a score is reported as it gave it: the first verdict for the question
/// decides, and a problem in it is reported with the question's id in front.
pub proof fn law_verdict_reported(
    request: Json,
    response: Json,
    verdicts: Seq<ScoreVerdict>,
    k: int,
    j: int,
)
    requires
        answered_with_probabilities(request, response, k),
        question_kind(question_at(request, k)) == "score"@,
        0 <= j < verdicts.len(),
        verdicts[j].id@ == question_id(request, k),
        verdicts[j].problem is Some,
        forall|i: int| 0 <= i < j ==> (#[trigger] verdicts[i]).id@ != question_id(request, k),
    ensures
        response_problems(request, response, verdicts).contains(
            question_id(request, k) + ": "@ + verdicts[j].problem->Some_0@,
        ),
{
    let id = question_id(request, k);
    let q = question_at(request, k);
    let a = answer_at(request, response, k);
    let es = probabilities_at(request, response, k);
    let m = verdicts[j].problem->Some_0@;
    lemma_verdict_found(verdicts, id, j);
    let v = verdict_problems(verdicts, id);
    assert(probability_problems(a).1 == Some(es));
    let before = probability_problems(a).0 + levels_problem(es, level_names(level_count(q)));
    let after = legend_problems(q, a) + unit_problems(a, "confidence"@);
    assert(score_problems(id, q, a, verdicts) =~= before + v + after);
    assert((before + v)[before.len() as int] == m);
    lemma_contains_left(before + v, after, m);
    reveal_strlit("score");
    reveal_strlit("choice");
    assert("score"@[0] != "choice"@[0]);
    lemma_kind_problem_reported(request, response, verdicts, k, m);
}

/// A question of a type the rules do not know is reported as such.
pub proof fn law_unknown_type_reported(
    request: Json,
    response: Json,
    verdicts: Seq<ScoreVerdict>,
    k: int,
)
    requires
        members_of(request, "questions"@) is Some,
        members_of(response, "answers"@) is Some,
        0 <= k < members_of(request, "questions"@)->Some_0.len(),
        response_lookup(response, question_id(request, k)) is Some,
        question_kind(question_at(request, k)) != "choice"@,
        question_kind(question_at(request, k)) != "score"@,
        question_kind(question_at(request, k)) != "noul"@,
    ensures
        response_problems(request, response, verdicts).contains(
            question_id(request, k) + ": "@ + ("unknown question type "@ + debug_str(
                question_kind(question_at(request, k)),
            )),
        ),
{
    let id = question_id(request, k);
    let q = question_at(request, k);
    let a = answer_at(request, response, k);
    let kind = question_kind(q);
    let m = "unknown question type "@ + debug_str(kind);
    let typed: Seq<Seq<char>> = if a.field("type"@) matches Some(Json::String(t)) && t@ == kind {
        Seq::empty()
    } else {
        seq!["the answer type is not "@ + kind]
    };
    assert(question_problems(id, q, a, verdicts) == typed + seq![m]);
    assert(seq![m][0] == m);
    lemma_contains_right(typed, seq![m], m);
    law_question_problems_reported(request, response, verdicts, k, m);
}

/// A choice whose probability is a number that no probability exceeds passes the argmax rule,
/// ties included.
pub proof fn law_argmax_passes(answer: Json, es: Seq<(String, Json)>, c: Seq<char>)
    requires
        answer.field("choice"@) matches Some(Json::String(s)) && s@ == c,
        lookup(es, c) matches Some(Json::Number(_)),
        forall|j: int| 0 <= j < es.len() ==> !#[trigger] exceeds(es, c, j),
    ensures
        argmax_problem(answer, es).len() == 0,
{
    assert forall|i: int| 0 <= i < es.len() implies (#[trigger] es[i].1 matches Json::Number(y)
        ==> y.order <= lookup(es, c)->Some_0->Number_0.order) by {
        assert(!exceeds(es, c, i));
    }
}

} // verus!
