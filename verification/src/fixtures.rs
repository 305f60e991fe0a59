//! The committed fixtures: one directory per case under `fixtures/<surface>/<case>/`, each with the
//! `request.json` a client sends and the `response.json` it gets back. Reading them is left to the
//! program around this library; what it makes of them is decided here.

use vstd::prelude::*;
use vstd::arithmetic::div_mod::lemma_fundamental_div_mod_converse;
use vstd::string::StringExecFns;
use crate::contract::{check, prefixed, push_prefixed, response_problems, say, ScoreVerdict};
use crate::json::{duplicate, field_v, is_set, lemma_field_value, set_member, set_v, texts, Json, JsonV};
use crate::text::{chars_of, contains, decimal, find_char_from, index_of, push_char, push_decimal};

verus! {

/// What is said when there are no fixtures.
pub fn nothing_to_check() -> (r: String)
    ensures
        r@ == "no fixtures found, which means this is checking nothing"@,
{
    String::from_str("no fixtures found, which means this is checking nothing")
}

/// The problems of one fixture: those the response rules find, with the case's name in front, or
/// why the request or, failing that, the response could not be read.
pub open spec fn fixture_problems(
    shown: Seq<char>,
    request: Result<Json, String>,
    response: Result<Json, String>,
    verdicts: Seq<ScoreVerdict>,
) -> Seq<Seq<char>> {
    match (request, response) {
        (Ok(req), Ok(resp)) => prefixed(shown, response_problems(req, resp, verdicts)),
        (Err(e), _) => seq![e@],
        (_, Err(e)) => seq![e@],
    }
}

/// Checks one fixture.
pub fn check_fixture(
    shown: &String,
    request: &Result<Json, String>,
    response: &Result<Json, String>,
    verdicts: &Vec<ScoreVerdict>,
) -> (r: Vec<String>)
    ensures
        texts(r@) == fixture_problems(shown@, *request, *response, verdicts@),
{
    let mut problems: Vec<String> = Vec::new();
    match request {
        Ok(req) => match response {
            Ok(resp) => {
                let found = check(req, resp, verdicts);
                push_prefixed(&mut problems, shown, &found);
            },
            Err(e) => {
                say(&mut problems, e.clone());
            },
        },
        Err(e) => {
            say(&mut problems, e.clone());
        },
    }
    assert(texts(problems@) =~= fixture_problems(shown@, *request, *response, verdicts@));
    problems
}

/// Items `i..` of `items`, each after `sep` but the first.
pub open spec fn joined_from(items: Seq<Seq<char>>, sep: Seq<char>, i: int) -> Seq<char>
    decreases items.len() - i,
{
    if 0 <= i < items.len() {
        (if i > 0 {
            sep
        } else {
            Seq::empty()
        }) + items[i] + joined_from(items, sep, i + 1)
    } else {
        Seq::empty()
    }
}

/// What checking every fixture comes to: an error when there are none, the count when none broke
/// a rule, and every problem, one per line, when some did.
pub open spec fn fixtures_outcome(count: nat, failures: Seq<Seq<char>>) -> Result<
    Seq<char>,
    Seq<char>,
> {
    if count == 0 {
        Err("no fixtures found, which means this is checking nothing"@)
    } else if failures.len() == 0 {
        Ok(decimal(count) + " fixtures obey the response contract\n"@)
    } else {
        Err(joined_from(failures, "\n"@, 0))
    }
}

proof fn lemma_joined_contains(items: Seq<Seq<char>>, sep: Seq<char>, i: int, k: int)
    requires
        0 <= i <= k < items.len(),
    ensures
        contains(joined_from(items, sep, i), items[k]),
    decreases k - i,
{
    let pre: Seq<char> = if i > 0 {
        sep
    } else {
        Seq::empty()
    };
    let rest = joined_from(items, sep, i + 1);
    let whole = joined_from(items, sep, i);
    assert(whole == pre + items[i] + rest);
    if i == k {
        let w = pre.len() as int;
        assert(whole.subrange(w, w + items[k].len()) =~= items[k]);
    } else {
        lemma_joined_contains(items, sep, i + 1, k);
        let p = items[k];
        let v = choose|v: int| 0 <= v && v + p.len() <= rest.len() && #[trigger] rest.subrange(v, v + p.len()) == p;
        let w = pre.len() + items[i].len() + v;
        assert(whole.subrange(w, w + p.len()) =~= rest.subrange(v, v + p.len()));
    }
}

/// With fixtures to check, the run passes exactly when none broke a rule; when some did, it
/// fails, and its text holds every failure.
pub proof fn law_failures_fail(count: nat, failures: Seq<Seq<char>>)
    requires
        count > 0,
    ensures
        fixtures_outcome(count, failures) is Ok <==> failures.len() == 0,
        forall|k: int|
            0 <= k < failures.len() ==> (fixtures_outcome(count, failures) matches Err(e)
                && contains(e, #[trigger] failures[k])),
{
    assert forall|k: int| 0 <= k < failures.len() implies (fixtures_outcome(count, failures) matches Err(e)
        && contains(e, #[trigger] failures[k])) by {
        lemma_joined_contains(failures, "\n"@, 0, k);
    }
}

/// Sums up the fixtures: `count` of them were checked and `failures` is what they broke.
pub fn fixtures_summary(count: usize, failures: &Vec<String>) -> (r: Result<String, String>)
    ensures
        match r {
            Ok(s) => fixtures_outcome(count as nat, texts(failures@)) == Ok::<
                Seq<char>,
                Seq<char>,
            >(s@),
            Err(e) => fixtures_outcome(count as nat, texts(failures@)) == Err::<
                Seq<char>,
                Seq<char>,
            >(e@),
        },
{
    if count == 0 {
        return Err(nothing_to_check());
    }
    if failures.len() == 0 {
        let mut s = String::new();
        push_decimal(&mut s, count as u128);
        s.append(" fixtures obey the response contract\n");
        assert(s@ =~= decimal(count as nat) + " fixtures obey the response contract\n"@);
        return Ok(s);
    }
    let ghost all = texts(failures@);
    let mut out = String::new();
    let mut i: usize = 0;
    while i < failures.len()
        invariant
            i <= failures@.len(),
            all == texts(failures@),
            out@ + joined_from(all, "\n"@, i as int) == joined_from(all, "\n"@, 0),
        decreases failures@.len() - i,
    {
        let ghost before = out@;
        if i > 0 {
            out.append("\n");
        }
        out.append(failures[i].as_str());
        let ghost sep: Seq<char> = if i > 0 {
            "\n"@
        } else {
            Seq::empty()
        };
        assert(out@ == before + sep + all[i as int]);
        assert(out@ + joined_from(all, "\n"@, i + 1) =~= before + joined_from(
            all,
            "\n"@,
            i as int,
        ));
        i += 1;
    }
    assert(out@ =~= joined_from(all, "\n"@, 0));
    Err(out)
}

/// Whether a request must be changed to be sent as `jev-latest`: the contract is Jev's, and
/// kime-serve takes a request with no model as laya-serve's dialect, so every committed request is
/// sent as `jev-latest`; only one that already names it stays as it is.
pub open spec fn needs_alias(request: Json) -> bool {
    !(request.field("model"@) matches Some(Json::String(m)) && m@ == "jev-latest"@)
}

/// A request as it is sent: naming `jev-latest`.
pub open spec fn sent_v(request: JsonV) -> JsonV {
    if field_v(request, "model"@) == Some(JsonV::String("jev-latest"@)) {
        request
    } else {
        set_v(request, "model"@, JsonV::String("jev-latest"@))
    }
}

/// Makes a fixture's request name `jev-latest`, whatever model it named.
pub fn alias_model(request: &mut Json)
    requires
        *old(request) is Object || *old(request) is Null,
    ensures
        (*final(request)).field("model"@) matches Some(Json::String(m)) && m@ == "jev-latest"@,
        needs_alias(*old(request)) ==> {
            &&& is_set(
                *old(request),
                *final(request),
                "model"@,
                (*final(request)).field("model"@)->Some_0,
            )
            &&& forall|k: Seq<char>|
                k != "model"@ ==> #[trigger] (*final(request)).field(k) == (*old(request)).field(
                    k,
                )
        },
        !needs_alias(*old(request)) ==> *final(request) == *old(request),
        final(request)@ == sent_v(old(request)@),
{
    proof {
        lemma_field_value(*request, "model"@);
    }
    let named = match request.get("model") {
        Some(m) => match m {
            Json::String(name) => *name == String::from_str("jev-latest"),
            _ => false,
        },
        None => false,
    };
    if !named {
        let alias = Json::String(String::from_str("jev-latest"));
        set_member(request, String::from_str("model"), alias);
    }
}

/// The name of the case that asks a fixture's questions about text `i` of the corpus at `path`.
pub fn case_name(path: &str, i: usize, name: &str) -> (r: String)
    ensures
        r@ == path@ + "["@ + decimal(i as nat) + "] with "@ + name@,
{
    let mut s = String::from_str(path);
    s.append("[");
    push_decimal(&mut s, i as u128);
    s.append("] with ");
    s.append(name);
    s
}

/// Makes a request ask its questions about `text`.
pub fn with_state(request: &mut Json, text: Json)
    requires
        *old(request) is Object || *old(request) is Null,
    ensures
        is_set(*old(request), *final(request), "state"@, text),
        (*final(request)).field("state"@) == Some(text),
        forall|k: Seq<char>|
            k != "state"@ ==> #[trigger] (*final(request)).field(k) == (*old(request)).field(k),
        final(request)@ == set_v(old(request)@, "state"@, text@),
{
    set_member(request, String::from_str("state"), text);
}

/// Case `k` of a live run, by name and request: first each fixture's request as it is sent, then,
/// for each text of the corpus at `path` in turn, each fixture's request as it is sent, asking its
/// questions about that text.
pub open spec fn live_case(
    templates: Seq<(String, Json)>,
    path: Seq<char>,
    texts: Seq<Json>,
    k: int,
) -> (Seq<char>, JsonV) {
    let f = templates.len() as int;
    if k < f {
        (templates[k].0@, sent_v(templates[k].1@))
    } else {
        let i = (k - f) / f;
        let j = (k - f) % f;
        (
            path + "["@ + decimal(i as nat) + "] with "@ + templates[j].0@,
            set_v(sent_v(templates[j].1@), "state"@, texts[i]@),
        )
    }
}

/// With `f` fixtures, case `f + i * f + j` asks fixture `j`'s questions about text `i`.
pub proof fn lemma_text_case(
    templates: Seq<(String, Json)>,
    path: Seq<char>,
    texts: Seq<Json>,
    i: int,
    j: int,
)
    requires
        0 <= i < texts.len(),
        0 <= j < templates.len(),
    ensures
        live_case(templates, path, texts, templates.len() + i * templates.len() + j) == (
            path + "["@ + decimal(i as nat) + "] with "@ + templates[j].0@,
            set_v(sent_v(templates[j].1@), "state"@, texts[i]@),
        ),
{
    let f = templates.len() as int;
    assert(i * f >= 0) by (nonlinear_arith)
        requires
            i >= 0,
            f >= 0,
    ;
    lemma_fundamental_div_mod_converse(i * f + j, f, i, j);
}

/// A value as it is sent is an object.
proof fn lemma_sent_object(request: JsonV)
    requires
        request is Object || request is Null,
    ensures
        sent_v(request) is Object,
{
}

/// The requests of a live run, by name: each fixture's request as it is sent, then, where `texts`
/// is a list, each fixture's request asking its questions about each text in turn.
pub fn live_cases(templates: &Vec<(String, Json)>, path: &str, texts: &Json) -> (r: Result<
    Vec<(String, Json)>,
    String,
>)
    requires
        forall|j: int|
            0 <= j < templates@.len() ==> (#[trigger] templates@[j]).1 is Object
                || templates@[j].1 is Null,
    ensures
        !(*texts is Array) ==> (r matches Err(e) && e@ == path@ + ": expected a list of strings"@),
        *texts matches Json::Array(xs) ==> (r matches Ok(cs) && cs@.len() == templates@.len() * (1
            + xs@.len()) && forall|k: int|
            0 <= k < cs@.len() ==> ((#[trigger] cs@[k]).0@, cs@[k].1@) == live_case(
                templates@,
                path@,
                xs@,
                k,
            )),
        *texts matches Json::Array(xs) ==> (r matches Ok(cs) && forall|j: int|
            #![trigger templates@[j]]
            0 <= j < templates@.len() ==> cs@[j].0@ == templates@[j].0@ && cs@[j].1@ == sent_v(
                templates@[j].1@,
            )),
        *texts matches Json::Array(xs) ==> (r matches Ok(cs) && forall|i: int, j: int|
            #![trigger xs@[i], templates@[j]]
            0 <= i < xs@.len() && 0 <= j < templates@.len() ==> {
                let c = cs@[templates@.len() + i * templates@.len() + j];
                &&& c.0@ == path@ + "["@ + decimal(i as nat) + "] with "@ + templates@[j].0@
                &&& c.1@ == set_v(sent_v(templates@[j].1@), "state"@, xs@[i]@)
            }),
{
    let xs = match texts {
        Json::Array(xs) => xs,
        _ => {
            let mut e = String::from_str(path);
            e.append(": expected a list of strings");
            return Err(e);
        },
    };
    let f = templates.len();
    let mut cs: Vec<(String, Json)> = Vec::new();
    let mut j: usize = 0;
    while j < f
        invariant
            j <= f == templates@.len(),
            forall|j: int|
                0 <= j < templates@.len() ==> (#[trigger] templates@[j]).1 is Object
                    || templates@[j].1 is Null,
            cs@.len() == j,
            forall|k: int|
                0 <= k < cs@.len() ==> ((#[trigger] cs@[k]).0@, cs@[k].1@) == live_case(
                    templates@,
                    path@,
                    xs@,
                    k,
                ),
        decreases f - j,
    {
        let mut request = duplicate(&templates[j].1);
        alias_model(&mut request);
        cs.push((templates[j].0.clone(), request));
        j += 1;
    }
    let mut i: usize = 0;
    while i < xs.len()
        invariant
            i <= xs@.len(),
            f == templates@.len(),
            forall|j: int|
                0 <= j < templates@.len() ==> (#[trigger] templates@[j]).1 is Object
                    || templates@[j].1 is Null,
            cs@.len() == f + i * f,
            forall|k: int|
                0 <= k < cs@.len() ==> ((#[trigger] cs@[k]).0@, cs@[k].1@) == live_case(
                    templates@,
                    path@,
                    xs@,
                    k,
                ),
        decreases xs@.len() - i,
    {
        let mut j: usize = 0;
        while j < f
            invariant
                i < xs@.len(),
                j <= f == templates@.len(),
                forall|j: int|
                    0 <= j < templates@.len() ==> (#[trigger] templates@[j]).1 is Object
                        || templates@[j].1 is Null,
                cs@.len() == f + i * f + j,
                forall|k: int|
                    0 <= k < cs@.len() ==> ((#[trigger] cs@[k]).0@, cs@[k].1@) == live_case(
                        templates@,
                        path@,
                        xs@,
                        k,
                    ),
            decreases f - j,
        {
            proof {
                assert(f + i * f + j >= f) by (nonlinear_arith)
                    requires
                        i >= 0,
                        f >= 0,
                        j >= 0,
                ;
                assert(live_case(templates@, path@, xs@, j as int).1 == sent_v(templates@[j as int].1@));
                lemma_sent_object(templates@[j as int].1@);
            }
            let mut request = duplicate(&cs[j].1);
            with_state(&mut request, duplicate(&xs[i]));
            let name = case_name(path, i, templates[j].0.as_str());
            cs.push((name, request));
            proof {
                lemma_text_case(templates@, path@, xs@, i as int, j as int);
            }
            j += 1;
        }
        assert(f + i * f + f == f + (i + 1) * f) by (nonlinear_arith);
        i += 1;
    }
    assert(f + xs@.len() * f == f * (1 + xs@.len())) by (nonlinear_arith);
    proof {
        assert forall|i: int, j: int|
            #![trigger xs@[i], templates@[j]]
            0 <= i < xs@.len() && 0 <= j < templates@.len() implies {
                let c = cs@[templates@.len() + i * templates@.len() + j];
                &&& c.0@ == path@ + "["@ + decimal(i as nat) + "] with "@ + templates@[j].0@
                &&& c.1@ == set_v(sent_v(templates@[j].1@), "state"@, xs@[i]@)
            } by {
            let t = xs@.len() as int;
            assert(0 <= f + i * f + j < f * (1 + t)) by (nonlinear_arith)
                requires
                    0 <= i < t,
                    0 <= j < f,
            ;
            lemma_text_case(templates@, path@, xs@, i, j);
        }
    }
    Ok(cs)
}

/// The lines of `s` from position `a` on, as `str::lines` gives them: split at each `\n`, a `\r`
/// just before it dropped, and no empty line after a final `\n`.
pub open spec fn lines_from(s: Seq<char>, a: int) -> Seq<Seq<char>>
    decreases s.len() - a,
{
    if 0 <= a < s.len() {
        let e = a + index_of(s.skip(a), '\n');
        if e < s.len() {
            let line = s.subrange(a, e);
            let line = if line.len() > 0 && line.last() == '\r' {
                line.drop_last()
            } else {
                line
            };
            seq![line] + lines_from(s, e + 1)
        } else {
            seq![s.subrange(a, s.len() as int)]
        }
    } else {
        Seq::empty()
    }
}

/// A line with each tab written as ` | `.
pub open spec fn tabs_as_bars(line: Seq<char>) -> Seq<char>
    decreases line.len(),
{
    if line.len() == 0 {
        Seq::empty()
    } else {
        (if line[0] == '\t' {
            " | "@
        } else {
            seq![line[0]]
        }) + tabs_as_bars(line.drop_first())
    }
}

/// Lines `i..` of the surfaces table as they are printed: comments and empty lines left out,
/// columns separated by ` | `, one line each.
pub open spec fn listing_from(lines: Seq<Seq<char>>, i: int) -> Seq<char>
    decreases lines.len() - i,
{
    if 0 <= i < lines.len() {
        (if lines[i].len() == 0 || lines[i][0] == '#' {
            Seq::empty()
        } else {
            tabs_as_bars(lines[i]) + seq!['\n']
        }) + listing_from(lines, i + 1)
    } else {
        Seq::empty()
    }
}

/// The compatibility surfaces and the milestone each starts at, as `surfaces.tsv` lists them.
pub open spec fn surfaces_listing(text: Seq<char>) -> Seq<char> {
    listing_from(lines_from(text, 0), 0)
}

proof fn lemma_tabs_as_bars_push(line: Seq<char>, c: char)
    ensures
        tabs_as_bars(line.push(c)) == tabs_as_bars(line) + (if c == '\t' {
            " | "@
        } else {
            seq![c]
        }),
    decreases line.len(),
{
    if line.len() > 0 {
        assert(line.push(c).drop_first() =~= line.drop_first().push(c));
        lemma_tabs_as_bars_push(line.drop_first(), c);
        assert(tabs_as_bars(line.push(c)) =~= tabs_as_bars(line) + (if c == '\t' {
            " | "@
        } else {
            seq![c]
        }));
    } else {
        assert(line.push(c).drop_first().len() == 0);
        assert(tabs_as_bars(line.push(c).drop_first()).len() == 0);
        assert(tabs_as_bars(line).len() == 0);
        assert(tabs_as_bars(line.push(c)) =~= tabs_as_bars(line) + (if c == '\t' {
            " | "@
        } else {
            seq![c]
        }));
    }
}

/// Appends `s[lo..hi]` to `out` with each tab written as ` | `.
fn push_tabs_as_bars(out: &mut String, s: &Vec<char>, lo: usize, hi: usize)
    requires
        lo <= hi <= s@.len(),
    ensures
        final(out)@ == old(out)@ + tabs_as_bars(s@.subrange(lo as int, hi as int)),
{
    let ghost start = out@;
    let mut i = lo;
    assert(s@.subrange(lo as int, lo as int).len() == 0);
    while i < hi
        invariant
            lo <= i <= hi <= s@.len(),
            out@ == start + tabs_as_bars(s@.subrange(lo as int, i as int)),
        decreases hi - i,
    {
        proof {
            lemma_tabs_as_bars_push(s@.subrange(lo as int, i as int), s@[i as int]);
            assert(s@.subrange(lo as int, i + 1) =~= s@.subrange(lo as int, i as int).push(s@[i as int]));
        }
        if s[i] == '\t' {
            out.append(" | ");
        } else {
            push_char(out, s[i]);
        }
        i += 1;
    }
}

/// Lists the compatibility surfaces from the text of `surfaces.tsv`.
pub fn surfaces(text: &str) -> (r: String)
    ensures
        r@ == surfaces_listing(text@),
{
    let s = chars_of(text);
    let n = s.len();
    let mut out = String::new();
    let mut a: usize = 0;
    let ghost all = lines_from(s@, 0);
    while a < n
        invariant
            a <= n == s@.len(),
            s@ == text@,
            all == lines_from(s@, 0),
            listing_from(all, 0) == out@ + listing_from(lines_from(s@, a as int), 0),
        decreases n - a,
    {
        let e = find_char_from(&s, a, '\n');
        let ghost before = out@;
        let ghost rest = lines_from(s@, a as int);
        let next: usize = if e < n { e + 1 } else { n };
        let mut hi = e;
        if e < n && e > a && s[e - 1] == '\r' {
            hi = e - 1;
        }
        let ghost line = s@.subrange(a as int, hi as int);
        proof {
            let line0 = s@.subrange(a as int, e as int);
            if e < n && e > a {
                assert(line0.last() == s@[e - 1]);
                assert(line0.drop_last() =~= s@.subrange(a as int, e - 1));
            }
            if e < n {
                assert(rest == seq![line] + lines_from(s@, e + 1));
            } else {
                assert(rest == seq![line]);
                assert(lines_from(s@, n as int).len() == 0);
            }
            assert(rest == seq![line] + lines_from(s@, next as int));
        }
        if hi > a && s[a] != '#' {
            push_tabs_as_bars(&mut out, &s, a, hi);
            push_char(&mut out, '\n');
        }
        proof {
            assert(listing_from(rest, 0) == (if line.len() == 0 || line[0] == '#' {
                Seq::<char>::empty()
            } else {
                tabs_as_bars(line) + seq!['\n']
            }) + listing_from(rest, 1));
            assert(rest.drop_first() =~= lines_from(s@, next as int));
            lemma_listing_skip(rest, 1);
        }
        a = next;
    }
    assert(lines_from(s@, n as int).len() == 0);
    assert(out@ =~= listing_from(all, 0));
    out
}

proof fn lemma_listing_skip(lines: Seq<Seq<char>>, i: int)
    requires
        0 <= i <= lines.len(),
    ensures
        listing_from(lines, i) == listing_from(lines.skip(i), 0),
    decreases lines.len() - i,
{
    if i < lines.len() {
        lemma_listing_skip(lines, i + 1);
        assert(lines.skip(i)[0] == lines[i]);
        lemma_listing_skip(lines.skip(i), 1);
        assert(lines.skip(i).skip(1) =~= lines.skip(i + 1));
    } else {
        assert(lines.skip(i).len() == 0);
    }
}

} // verus!
