//! The style compositor: which spans of a line get which color, and the line
//! rewritten with the escape sequences that switch between them.

use vstd::prelude::*;
use vstd::string::*;
use vstd::utf8::*;

use crate::color::{color_named, fg_sequence, Color};
use crate::pattern::{captures, captures_of, spans_within, Pattern};

verus! {

/// A secondary rule: within a line that its line rule matched, the groups of
/// this pattern's match get colors of their own.
#[derive(Debug)]
pub struct Token {
    pub pat: Pattern,
    /// Color name of each group, by group index.
    pub colors: Vec<String>,
}

/// A rule for whole lines: the groups of its pattern's match are colored,
/// and its tokens are applied to the same line.
#[derive(Debug)]
pub struct Line {
    pub pat: Pattern,
    /// Color name of each group, by group index.
    pub colors: Vec<String>,
    pub tokens: Vec<Token>,
}

/// The ordered line rules; the first one that matches a line styles it.
#[derive(Debug)]
pub struct Config {
    pub lines: Vec<Line>,
}

/// Whether an event opens or closes a colored span.
#[derive(Clone, Copy, Debug, PartialEq, Eq, Structural)]
pub enum Side {
    Start,
    End,
}

/// A boundary of a colored span: a byte offset into the line.
#[derive(Clone, Copy, Debug, PartialEq, Eq, Structural)]
pub struct Event {
    pub side: Side,
    pub pos: usize,
    pub color: Color,
}

/// Why a line could not be styled.
#[derive(Debug)]
pub enum ColorizeError {
    /// A group took part in a match and its color name is not in the table.
    UnknownColor(String),
    /// A group took part in a match and its rule names no color for it.
    MissingColor(usize),
}

impl ColorizeError {
    /// A sentence that says what went wrong.
    pub fn message(&self) -> (r: String)
        ensures
            self matches ColorizeError::UnknownColor(name) ==> r@ == "failed to parse color name '"@
                + name@ + "'"@,
            self is MissingColor ==> r@ == "a group of a match has no color name"@,
    {
        match self {
            ColorizeError::UnknownColor(name) => {
                let mut m = String::from_str("failed to parse color name '");
                m.append(name.as_str());
                m.append("'");
                m
            },
            ColorizeError::MissingColor(_) => String::from_str(
                "a group of a match has no color name",
            ),
        }
    }
}

/// What a `ColorizeError` says, as plain values.
pub enum Fault {
    UnknownColor(Seq<char>),
    MissingColor(int),
}

impl View for ColorizeError {
    type V = Fault;

    open spec fn view(&self) -> Fault {
        match self {
            ColorizeError::UnknownColor(name) => Fault::UnknownColor(name@),
            ColorizeError::MissingColor(j) => Fault::MissingColor(*j as int),
        }
    }
}

/// The color of group `j` under the color names `names`.
pub open spec fn group_color(names: Seq<String>, j: int) -> Result<Color, Fault> {
    if 0 <= j < names.len() {
        match color_named(names[j]@) {
            Some(c) => Ok(c),
            None => Err(Fault::UnknownColor(names[j]@)),
        }
    } else {
        Err(Fault::MissingColor(j))
    }
}

/// The event that opens a span of `color` at `pos`.
pub open spec fn start(pos: usize, color: Color) -> Event {
    Event { side: Side::Start, pos, color }
}

/// The event that closes a span of `color` at `pos`.
pub open spec fn end(pos: usize, color: Color) -> Event {
    Event { side: Side::End, pos, color }
}

/// The events of a line rule's match: for each group that took part, in
/// group order, its start and then its end.
pub open spec fn line_events(spans: Seq<Option<(usize, usize)>>, names: Seq<String>) -> Result<
    Seq<Event>,
    Fault,
>
    decreases spans.len(),
{
    if spans.len() == 0 {
        Ok(seq![])
    } else {
        match line_events(spans.drop_last(), names) {
            Err(f) => Err(f),
            Ok(evs) => match spans.last() {
                None => Ok(evs),
                Some((s, e)) => match group_color(names, spans.len() - 1) {
                    Err(f) => Err(f),
                    Ok(c) => Ok(evs.push(start(s, c)).push(end(e, c))),
                },
            },
        }
    }
}

/// `evs` with the events of a token's match added: for each group that took
/// part, in group order, its start goes to the back and its end to the front.
pub open spec fn token_events(
    evs: Seq<Event>,
    spans: Seq<Option<(usize, usize)>>,
    names: Seq<String>,
) -> Result<Seq<Event>, Fault>
    decreases spans.len(),
{
    if spans.len() == 0 {
        Ok(evs)
    } else {
        match token_events(evs, spans.drop_last(), names) {
            Err(f) => Err(f),
            Ok(prev) => match spans.last() {
                None => Ok(prev),
                Some((s, e)) => match group_color(names, spans.len() - 1) {
                    Err(f) => Err(f),
                    Ok(c) => Ok(seq![end(e, c)] + prev.push(start(s, c))),
                },
            },
        }
    }
}

/// The spans that the tokens' patterns found in a line: for each token, the
/// spans of its groups, or `None` where it did not match.
pub open spec fn token_matches(tokens: Seq<Token>, text: Seq<char>) -> Seq<
    Option<Seq<Option<(usize, usize)>>>,
> {
    Seq::new(tokens.len(), |t: int| captures_of(tokens[t].pat@, text))
}

/// `evs` with the events of each token that matched added, token by token;
/// `found[t]` is what token `t` found.
pub open spec fn tokens_events(
    evs: Seq<Event>,
    tokens: Seq<Token>,
    found: Seq<Option<Seq<Option<(usize, usize)>>>>,
) -> Result<Seq<Event>, Fault>
    decreases found.len(),
{
    if found.len() == 0 {
        Ok(evs)
    } else {
        match tokens_events(evs, tokens, found.drop_last()) {
            Err(f) => Err(f),
            Ok(prev) => match found.last() {
                None => Ok(prev),
                Some(spans) => token_events(prev, spans, tokens[found.len() - 1].colors@),
            },
        }
    }
}

/// The events of line rule `line`, whose pattern matched with group spans
/// `spans`, and whose tokens found `found`.
pub open spec fn rule_events(
    line: Line,
    spans: Seq<Option<(usize, usize)>>,
    found: Seq<Option<Seq<Option<(usize, usize)>>>>,
) -> Result<Seq<Event>, Fault> {
    match line_events(spans, line.colors@) {
        Err(f) => Err(f),
        Ok(evs) => tokens_events(evs, line.tokens@, found),
    }
}

/// The bytes of line `text` styled by rule `line`, given the spans its
/// pattern and its tokens found: the events in a stable order by offset,
/// swept over the line.
pub open spec fn styled_match(
    text: Seq<u8>,
    line: Line,
    spans: Seq<Option<(usize, usize)>>,
    found: Seq<Option<Seq<Option<(usize, usize)>>>>,
) -> Result<Seq<u8>, Fault> {
    match rule_events(line, spans, found) {
        Err(f) => Err(f),
        Ok(evs) => Ok(render(text, by_position(evs, 0, text.len() as int))),
    }
}

/// What a list of token matches holds, as plain values.
pub open spec fn found_view(found: Seq<Option<Vec<Option<(usize, usize)>>>>) -> Seq<
    Option<Seq<Option<(usize, usize)>>>,
> {
    Seq::new(
        found.len(),
        |t: int|
            match found[t] {
                Some(v) => Some(v@),
                None => None,
            },
    )
}

/// Every span that the tokens found lies within `bytes`.
pub open spec fn found_within(found: Seq<Option<Seq<Option<(usize, usize)>>>>, bytes: Seq<u8>) -> bool {
    forall|t: int|
        0 <= t < found.len() ==> match #[trigger] found[t] {
            Some(spans) => spans_within(spans, bytes),
            None => true,
        }
}

/// The color of group `j` under the color names `names`.
fn resolve(names: &Vec<String>, j: usize) -> (r: Result<Color, ColorizeError>)
    ensures
        match r {
            Ok(c) => group_color(names@, j as int) == Ok::<Color, Fault>(c),
            Err(e) => group_color(names@, j as int) == Err::<Color, Fault>(e@),
        },
{
    if j < names.len() {
        match Color::from_name(names[j].as_str()) {
            Some(c) => Ok(c),
            None => Err(ColorizeError::UnknownColor(names[j].clone())),
        }
    } else {
        Err(ColorizeError::MissingColor(j))
    }
}


/// The events of `evs` at byte offset `p`, in their order in `evs`.
pub open spec fn events_at(evs: Seq<Event>, p: int) -> Seq<Event>
    decreases evs.len(),
{
    if evs.len() == 0 {
        seq![]
    } else if evs.last().pos == p {
        events_at(evs.drop_last(), p).push(evs.last())
    } else {
        events_at(evs.drop_last(), p)
    }
}

/// The events of `evs` at offsets `from` through `upto`, in order of offset;
/// those at one offset keep their order in `evs` (a stable sort by offset).
pub open spec fn by_position(evs: Seq<Event>, from: int, upto: int) -> Seq<Event>
    decreases upto + 1 - from,
{
    if from > upto {
        seq![]
    } else {
        events_at(evs, from) + by_position(evs, from + 1, upto)
    }
}

/// The color on top of `stack`.
pub open spec fn top(stack: Seq<Color>) -> Color {
    if stack.len() == 0 {
        Color::Default
    } else {
        stack.last()
    }
}

/// The color stack after event `ev`: a start pushes its color; an end pops
/// the top, but never the bottom entry.
pub open spec fn apply(stack: Seq<Color>, ev: Event) -> Seq<Color> {
    match ev.side {
        Side::Start => stack.push(ev.color),
        Side::End => if stack.len() > 1 {
            stack.drop_last()
        } else {
            stack
        },
    }
}

/// The color stack after sweeping `evs`, starting from `[Default]`.
pub open spec fn stack_after(evs: Seq<Event>) -> Seq<Color>
    decreases evs.len(),
{
    if evs.len() == 0 {
        seq![Color::Default]
    } else {
        apply(stack_after(evs.drop_last()), evs.last())
    }
}

/// The offset the sweep has reached after `evs`.
pub open spec fn cursor(evs: Seq<Event>) -> int {
    if evs.len() == 0 {
        0
    } else {
        evs.last().pos as int
    }
}

/// What the sweep over `evs` writes before the tail of `text`: for each
/// event, the text from the previous event's offset to its own, then the
/// escape sequence of the color on top of the stack once it is applied.
pub open spec fn render_events(text: Seq<u8>, evs: Seq<Event>) -> Seq<u8>
    decreases evs.len(),
{
    if evs.len() == 0 {
        seq![]
    } else {
        render_events(text, evs.drop_last()) + text.subrange(
            cursor(evs.drop_last()),
            evs.last().pos as int,
        ) + encode_utf8(fg_sequence(top(stack_after(evs))))
    }
}

/// The line `text` rewritten by the sweep over `evs`: what the events write,
/// then the rest of the text.
pub open spec fn render(text: Seq<u8>, evs: Seq<Event>) -> Seq<u8> {
    render_events(text, evs) + text.subrange(cursor(evs), text.len() as int)
}

/// Every event lies within `bytes`, on a character boundary.
pub open spec fn positions_within(evs: Seq<Event>, bytes: Seq<u8>) -> bool {
    forall|i: int|
        0 <= i < evs.len() ==> #[trigger] evs[i].pos <= bytes.len() && is_char_boundary(
            bytes,
            evs[i].pos as int,
        )
}

/// The offsets of `evs` never decrease.
pub open spec fn ordered(evs: Seq<Event>) -> bool {
    forall|i: int, j: int| 0 <= i <= j < evs.len() ==> evs[i].pos <= evs[j].pos
}

/// Index of the first rule, from `i` on, whose pattern matches `text`.
pub open spec fn first_match(lines: Seq<Line>, text: Seq<char>, i: int) -> Option<int>
    decreases lines.len() - i,
{
    if i >= lines.len() {
        None
    } else if captures_of(lines[i].pat@, text) is Some {
        Some(i)
    } else {
        first_match(lines, text, i + 1)
    }
}

/// The result of styling line `text` under the rules `lines`: the bytes of
/// the styled line and the index of the rule that matched, or the fault that
/// stopped it.
pub open spec fn styled(text: Seq<char>, lines: Seq<Line>) -> Result<
    (Seq<u8>, Option<usize>),
    Fault,
> {
    match first_match(lines, text, 0) {
        None => Ok((encode_utf8(text), None)),
        Some(i) => match styled_match(
            encode_utf8(text),
            lines[i],
            captures_of(lines[i].pat@, text)->Some_0,
            token_matches(lines[i].tokens@, text),
        ) {
            Err(f) => Err(f),
            Ok(bytes) => Ok((bytes, Some(i as usize))),
        },
    }
}

proof fn lemma_line_events_failed(
    spans: Seq<Option<(usize, usize)>>,
    names: Seq<String>,
    k: int,
)
    requires
        0 <= k <= spans.len(),
        line_events(spans.take(k), names) is Err,
    ensures
        line_events(spans, names) == line_events(spans.take(k), names),
    decreases spans.len(),
{
    if k < spans.len() {
        assert(spans.drop_last().take(k) =~= spans.take(k));
        lemma_line_events_failed(spans.drop_last(), names, k);
    } else {
        assert(spans.take(k) =~= spans);
    }
}

proof fn lemma_token_events_failed(
    evs: Seq<Event>,
    spans: Seq<Option<(usize, usize)>>,
    names: Seq<String>,
    k: int,
)
    requires
        0 <= k <= spans.len(),
        token_events(evs, spans.take(k), names) is Err,
    ensures
        token_events(evs, spans, names) == token_events(evs, spans.take(k), names),
    decreases spans.len(),
{
    if k < spans.len() {
        assert(spans.drop_last().take(k) =~= spans.take(k));
        lemma_token_events_failed(evs, spans.drop_last(), names, k);
    } else {
        assert(spans.take(k) =~= spans);
    }
}

proof fn lemma_tokens_events_failed(
    evs: Seq<Event>,
    tokens: Seq<Token>,
    found: Seq<Option<Seq<Option<(usize, usize)>>>>,
    k: int,
)
    requires
        0 <= k <= found.len(),
        tokens_events(evs, tokens, found.take(k)) is Err,
    ensures
        tokens_events(evs, tokens, found) == tokens_events(evs, tokens, found.take(k)),
    decreases found.len(),
{
    if k < found.len() {
        assert(found.drop_last().take(k) =~= found.take(k));
        lemma_tokens_events_failed(evs, tokens, found.drop_last(), k);
    } else {
        assert(found.take(k) =~= found);
    }
}

/// The events of a line rule's match with group spans `spans`.
fn collect_line_events(
    spans: &Vec<Option<(usize, usize)>>,
    names: &Vec<String>,
    Ghost(bytes): Ghost<Seq<u8>>,
) -> (r: Result<Vec<Event>, ColorizeError>)
    requires
        spans_within(spans@, bytes),
    ensures
        r matches Ok(v) ==> positions_within(v@, bytes),
        match r {
            Ok(v) => line_events(spans@, names@) == Ok::<Seq<Event>, Fault>(v@),
            Err(e) => line_events(spans@, names@) == Err::<Seq<Event>, Fault>(e@),
        },
{
    let mut evs: Vec<Event> = Vec::new();
    let mut j: usize = 0;
    while j < spans.len()
        invariant
            j <= spans@.len(),
            spans_within(spans@, bytes),
            positions_within(evs@, bytes),
            line_events(spans@.take(j as int), names@) == Ok::<Seq<Event>, Fault>(evs@),
        decreases spans@.len() - j,
    {
        assert(spans@.take(j + 1).drop_last() =~= spans@.take(j as int));
        match spans[j] {
            Some((s, e)) => match resolve(names, j) {
                Ok(c) => {
                    evs.push(Event { side: Side::Start, pos: s, color: c });
                    evs.push(Event { side: Side::End, pos: e, color: c });
                },
                Err(x) => {
                    proof {
                        lemma_line_events_failed(spans@, names@, j + 1);
                    }
                    return Err(x);
                },
            },
            None => {},
        }
        j = j + 1;
    }
    assert(spans@.take(j as int) =~= spans@);
    Ok(evs)
}

/// Adds the events of a token's match with group spans `spans` to `evs`.
fn add_token_events(
    evs: &mut Vec<Event>,
    spans: &Vec<Option<(usize, usize)>>,
    names: &Vec<String>,
    Ghost(bytes): Ghost<Seq<u8>>,
) -> (r: Result<(), ColorizeError>)
    requires
        spans_within(spans@, bytes),
        positions_within(old(evs)@, bytes),
    ensures
        r is Ok ==> positions_within(final(evs)@, bytes),
        match r {
            Ok(_) => token_events(old(evs)@, spans@, names@) == Ok::<Seq<Event>, Fault>(final(evs)@),
            Err(e) => token_events(old(evs)@, spans@, names@) == Err::<Seq<Event>, Fault>(e@),
        },
{
    let ghost first = evs@;
    let mut j: usize = 0;
    while j < spans.len()
        invariant
            j <= spans@.len(),
            first == old(evs)@,
            spans_within(spans@, bytes),
            positions_within(evs@, bytes),
            token_events(first, spans@.take(j as int), names@) == Ok::<Seq<Event>, Fault>(evs@),
        decreases spans@.len() - j,
    {
        assert(spans@.take(j + 1).drop_last() =~= spans@.take(j as int));
        match spans[j] {
            Some((s, e)) => match resolve(names, j) {
                Ok(c) => {
                    let ghost prev = evs@;
                    evs.push(Event { side: Side::Start, pos: s, color: c });
                    evs.insert(0, Event { side: Side::End, pos: e, color: c });
                    assert(evs@ =~= seq![end(e, c)] + prev.push(start(s, c)));
                },
                Err(x) => {
                    proof {
                        lemma_token_events_failed(first, spans@, names@, j + 1);
                    }
                    return Err(x);
                },
            },
            None => {},
        }
        j = j + 1;
    }
    assert(spans@.take(j as int) =~= spans@);
    Ok(())
}

/// Adds the events of every token that matched to `evs`, token by token;
/// `found[t]` is what token `t` found.
fn add_tokens_events(
    evs: &mut Vec<Event>,
    tokens: &Vec<Token>,
    found: &Vec<Option<Vec<Option<(usize, usize)>>>>,
    Ghost(bytes): Ghost<Seq<u8>>,
) -> (r: Result<(), ColorizeError>)
    requires
        found@.len() == tokens@.len(),
        found_within(found_view(found@), bytes),
        positions_within(old(evs)@, bytes),
    ensures
        r is Ok ==> positions_within(final(evs)@, bytes),
        match r {
            Ok(_) => tokens_events(old(evs)@, tokens@, found_view(found@)) == Ok::<
                Seq<Event>,
                Fault,
            >(final(evs)@),
            Err(e) => tokens_events(old(evs)@, tokens@, found_view(found@)) == Err::<
                Seq<Event>,
                Fault,
            >(e@),
        },
{
    let ghost first = evs@;
    let ghost all = found_view(found@);
    let mut t: usize = 0;
    while t < found.len()
        invariant
            t <= found@.len(),
            found@.len() == tokens@.len(),
            all == found_view(found@),
            found_within(all, bytes),
            first == old(evs)@,
            positions_within(evs@, bytes),
            tokens_events(first, tokens@, all.take(t as int)) == Ok::<Seq<Event>, Fault>(evs@),
        decreases found@.len() - t,
    {
        assert(all.take(t + 1).drop_last() =~= all.take(t as int));
        assert(all.take(t + 1).last() == all[t as int]);
        match &found[t] {
            Some(spans) => {
                assert(all[t as int] == Some(spans@));
                match add_token_events(evs, spans, &tokens[t].colors, Ghost(bytes)) {
                    Ok(_) => {},
                    Err(x) => {
                        proof {
                            lemma_tokens_events_failed(first, tokens@, all, t + 1);
                        }
                        return Err(x);
                    },
                }
            },
            None => {},
        }
        t = t + 1;
    }
    assert(all.take(t as int) =~= all);
    Ok(())
}

/// What each token's pattern finds in `text`.
fn find_tokens(tokens: &Vec<Token>, text: &str) -> (r: Vec<Option<Vec<Option<(usize, usize)>>>>)
    ensures
        found_view(r@) == token_matches(tokens@, text@),
        found_within(found_view(r@), text.spec_bytes()),
{
    let mut found: Vec<Option<Vec<Option<(usize, usize)>>>> = Vec::new();
    let mut t: usize = 0;
    while t < tokens.len()
        invariant
            t <= tokens@.len(),
            found_view(found@) == token_matches(tokens@, text@).take(t as int),
            found_within(found_view(found@), text.spec_bytes()),
        decreases tokens@.len() - t,
    {
        let m = captures(&tokens[t].pat, text);
        let ghost before = found@;
        assert(found_view(before).len() == before.len());
        assert(before.len() == t);
        found.push(m);
        assert(found_view(found@) =~= token_matches(tokens@, text@).take(t + 1)) by {
            assert(found@ == before.push(m));
            assert forall|k: int| 0 <= k <= t implies found_view(found@)[k] == token_matches(
                tokens@,
                text@,
            )[k] by {
                if k < t {
                    assert(found@[k] == before[k]);
                    assert(found_view(before)[k] == token_matches(tokens@, text@).take(
                        t as int,
                    )[k]);
                } else {
                    assert(found@[k] == m);
                }
            }
        }
        assert forall|k: int| 0 <= k < found@.len() implies match #[trigger] found_view(found@)[k] {
            Some(spans) => spans_within(spans, text.spec_bytes()),
            None => true,
        } by {
            if k < t {
                assert(found_view(found@)[k] == found_view(before)[k]);
            }
        }
        t = t + 1;
    }
    assert(token_matches(tokens@, text@).take(t as int) =~= token_matches(tokens@, text@));
    found
}

proof fn lemma_events_at(evs: Seq<Event>, p: int, bytes: Seq<u8>)
    ensures
        forall|i: int|
            0 <= i < events_at(evs, p).len() ==> (#[trigger] events_at(evs, p)[i]).pos == p,
        positions_within(evs, bytes) ==> positions_within(events_at(evs, p), bytes),
        (forall|i: int| 0 <= i < evs.len() ==> (#[trigger] evs[i]).pos != p) ==> events_at(
            evs,
            p,
        ).len() == 0,
    decreases evs.len(),
{
    if evs.len() > 0 {
        let rest = evs.drop_last();
        lemma_events_at(rest, p, bytes);
        if positions_within(evs, bytes) {
            assert forall|i: int| 0 <= i < rest.len() implies #[trigger] rest[i].pos <= bytes.len()
                && is_char_boundary(bytes, rest[i].pos as int) by {
                assert(rest[i] == evs[i]);
            }
            let r = events_at(evs, p);
            assert forall|i: int| 0 <= i < r.len() implies #[trigger] r[i].pos <= bytes.len()
                && is_char_boundary(bytes, r[i].pos as int) by {
                if i < events_at(rest, p).len() {
                } else {
                    assert(r[i] == evs[evs.len() - 1]);
                }
            }
        }
        if forall|i: int| 0 <= i < evs.len() ==> (#[trigger] evs[i]).pos != p {
            assert(evs[evs.len() - 1].pos != p);
            assert forall|i: int| 0 <= i < rest.len() implies (#[trigger] rest[i]).pos != p by {
                assert(rest[i] == evs[i]);
            }
        }
    }
}

proof fn lemma_by_position(evs: Seq<Event>, a: int, c: int, bytes: Seq<u8>)
    ensures
        forall|i: int|
            0 <= i < by_position(evs, a, c).len() ==> a <= (#[trigger] by_position(
                evs,
                a,
                c,
            )[i]).pos <= c,
        ordered(by_position(evs, a, c)),
        positions_within(evs, bytes) ==> positions_within(by_position(evs, a, c), bytes),
        (forall|i: int| 0 <= i < evs.len() ==> !(a <= (#[trigger] evs[i]).pos <= c)) ==> by_position(
            evs,
            a,
            c,
        ).len() == 0,
    decreases c + 1 - a,
{
    if a <= c {
        lemma_by_position(evs, a + 1, c, bytes);
        lemma_events_at(evs, a, bytes);
        let x = events_at(evs, a);
        let y = by_position(evs, a + 1, c);
        let r = by_position(evs, a, c);
        assert(r == x + y);
        assert forall|i: int| 0 <= i < r.len() implies a <= (#[trigger] r[i]).pos <= c by {
            if i >= x.len() {
                assert(r[i] == y[i - x.len()]);
            }
        }
        assert forall|i: int, j: int| 0 <= i <= j < r.len() implies r[i].pos <= r[j].pos by {
            if j < x.len() {
                assert(r[i] == x[i] && r[j] == x[j]);
            } else if i >= x.len() {
                assert(r[i] == y[i - x.len()] && r[j] == y[j - x.len()]);
            } else {
                assert(r[i] == x[i] && r[j] == y[j - x.len()]);
            }
        }
        if positions_within(evs, bytes) {
            assert forall|i: int| 0 <= i < r.len() implies #[trigger] r[i].pos <= bytes.len()
                && is_char_boundary(bytes, r[i].pos as int) by {
                if i < x.len() {
                    assert(r[i] == x[i]);
                } else {
                    assert(r[i] == y[i - x.len()]);
                }
            }
        }
        if forall|i: int| 0 <= i < evs.len() ==> !(a <= (#[trigger] evs[i]).pos <= c) {
            assert forall|i: int| 0 <= i < evs.len() implies (#[trigger] evs[i]).pos != a by {}
            assert forall|i: int| 0 <= i < evs.len() implies !(a + 1 <= (#[trigger] evs[i]).pos
                <= c) by {}
        }
    }
}

proof fn lemma_by_position_split(evs: Seq<Event>, a: int, b: int, c: int)
    requires
        a - 1 <= b <= c,
    ensures
        by_position(evs, a, c) == by_position(evs, a, b) + by_position(evs, b + 1, c),
    decreases b + 1 - a,
{
    if b < a {
        assert(by_position(evs, a, b) + by_position(evs, b + 1, c) =~= by_position(evs, a, c));
    } else {
        lemma_by_position_split(evs, a + 1, b, c);
        assert(by_position(evs, a, c) =~= by_position(evs, a, b) + by_position(evs, b + 1, c));
    }
}

/// The events `evs` in a stable order by offset.
fn sort_by_position(evs: &Vec<Event>, upto: usize) -> (r: Vec<Event>)
    requires
        forall|i: int| 0 <= i < evs@.len() ==> (#[trigger] evs@[i]).pos <= upto,
    ensures
        r@ == by_position(evs@, 0, upto as int),
{
    let mut out: Vec<Event> = Vec::new();
    let mut lo: usize = 0;
    loop
        invariant
            lo <= upto,
            forall|i: int| 0 <= i < evs@.len() ==> (#[trigger] evs@[i]).pos <= upto,
            out@ == by_position(evs@, 0, lo as int - 1),
        decreases upto - lo,
    {
        let mut next: Option<usize> = None;
        let mut k: usize = 0;
        while k < evs.len()
            invariant
                k <= evs@.len(),
                forall|i: int| 0 <= i < evs@.len() ==> (#[trigger] evs@[i]).pos <= upto,
                match next {
                    Some(p) => lo <= p <= upto && (exists|i: int|
                        0 <= i < k && (#[trigger] evs@[i]).pos == p) && forall|i: int|
                        0 <= i < k && lo <= (#[trigger] evs@[i]).pos ==> p <= evs@[i].pos,
                    None => forall|i: int| 0 <= i < k ==> (#[trigger] evs@[i]).pos < lo,
                },
            decreases evs@.len() - k,
        {
            let q = evs[k].pos;
            if lo <= q {
                match next {
                    Some(p) => {
                        if q < p {
                            next = Some(q);
                        }
                    },
                    None => {
                        next = Some(q);
                    },
                }
            }
            k = k + 1;
        }
        match next {
            None => {
                proof {
                    lemma_by_position(evs@, lo as int, upto as int, Seq::empty());
                    lemma_by_position_split(evs@, 0, lo as int - 1, upto as int);
                }
                assert(out@ =~= by_position(evs@, 0, upto as int));
                return out;
            },
            Some(p) => {
                let ghost before = out@;
                let mut k: usize = 0;
                while k < evs.len()
                    invariant
                        k <= evs@.len(),
                        out@ == before + events_at(evs@.take(k as int), p as int),
                    decreases evs@.len() - k,
                {
                    assert(evs@.take(k + 1).drop_last() =~= evs@.take(k as int));
                    if evs[k].pos == p {
                        out.push(evs[k]);
                    }
                    k = k + 1;
                }
                assert(evs@.take(k as int) =~= evs@);
                proof {
                    lemma_by_position(evs@, lo as int, p as int - 1, Seq::empty());
                    lemma_by_position_split(evs@, 0, lo as int - 1, p as int - 1);
                    lemma_by_position_split(evs@, 0, p as int - 1, p as int);
                    assert(by_position(evs@, p as int + 1, p as int) =~= Seq::<Event>::empty());
                }
                assert(out@ =~= by_position(evs@, 0, p as int));
                if p >= upto {
                    return out;
                }
                lo = p + 1;
            },
        }
    }
}

proof fn lemma_encode_concat(a: Seq<char>, b: Seq<char>)
    ensures
        encode_utf8(a + b) == encode_utf8(a) + encode_utf8(b),
    decreases a.len(),
{
    if a.len() == 0 {
        assert(a + b =~= b);
    } else {
        lemma_encode_concat(a.drop_first(), b);
        assert((a + b).drop_first() =~= a.drop_first() + b);
        assert((a + b)[0] == a[0]);
        assert(encode_utf8(a + b) =~= encode_utf8(a) + encode_utf8(b));
    }
}

proof fn lemma_suffix_boundary(bytes: Seq<u8>, idx: int, pos: int)
    requires
        valid_utf8(bytes),
        0 <= idx <= pos <= bytes.len(),
        is_char_boundary(bytes, idx),
        is_char_boundary(bytes, pos),
    ensures
        is_char_boundary(bytes.subrange(idx, bytes.len() as int), pos - idx),
{
    let rest = bytes.subrange(idx, bytes.len() as int);
    valid_utf8_split(bytes, idx);
    is_char_boundary_start_end_of_seq(rest);
    if pos < bytes.len() {
        is_char_boundary_iff_not_is_continuation_byte(bytes, pos);
        is_char_boundary_iff_not_is_continuation_byte(rest, pos - idx);
        assert(rest[pos - idx] == bytes[pos]);
    } else {
        assert(rest.len() == pos - idx);
    }
}

/// Sweeps `evs` over `text`, writing the text between events and, at each
/// event, the escape sequence of the color then on top of the stack.
fn render_line(text: &str, evs: &Vec<Event>) -> (r: String)
    requires
        ordered(evs@),
        positions_within(evs@, text.spec_bytes()),
    ensures
        encode_utf8(r@) == render(text.spec_bytes(), evs@),
{
    let ghost bytes = text.spec_bytes();
    proof {
        encode_utf8_valid_utf8(text@);
        is_char_boundary_start_end_of_seq(bytes);
    }
    let mut out = String::new();
    let mut stack: Vec<Color> = Vec::new();
    stack.push(Color::Default);
    let mut rest: &str = text;
    let mut idx: usize = 0;
    let mut k: usize = 0;
    assert(rest.spec_bytes() =~= bytes.subrange(0, bytes.len() as int));
    while k < evs.len()
        invariant
            bytes == text.spec_bytes(),
            valid_utf8(bytes),
            ordered(evs@),
            positions_within(evs@, bytes),
            k <= evs@.len(),
            stack@ == stack_after(evs@.take(k as int)),
            stack@.len() >= 1,
            idx as int == cursor(evs@.take(k as int)),
            idx <= bytes.len(),
            is_char_boundary(bytes, idx as int),
            k > 0 ==> idx == evs@[k - 1].pos,
            rest.spec_bytes() == bytes.subrange(idx as int, bytes.len() as int),
            encode_utf8(out@) == render_events(bytes, evs@.take(k as int)),
        decreases evs@.len() - k,
    {
        let ev = evs[k];
        let ghost prefix = evs@.take(k as int);
        assert(evs@.take(k + 1).drop_last() =~= prefix);
        assert(evs@.take(k + 1).last() == ev);
        assert(evs@[k as int].pos <= bytes.len() && is_char_boundary(bytes, ev.pos as int));
        if k > 0 {
            assert(evs@[k - 1].pos <= evs@[k as int].pos);
        }
        match ev.side {
            Side::Start => {
                stack.push(ev.color);
            },
            Side::End => {
                if stack.len() > 1 {
                    stack.pop();
                }
            },
        }
        assert(stack@ =~= stack_after(evs@.take(k + 1)));
        proof {
            lemma_suffix_boundary(bytes, idx as int, ev.pos as int);
        }
        let (head, tail) = rest.split_at(ev.pos - idx);
        let ghost old_out = out@;
        out.append(head);
        let esc = stack[stack.len() - 1].escape();
        out.append(esc.as_str());
        proof {
            lemma_encode_concat(old_out, head@);
            lemma_encode_concat(old_out + head@, esc@);
            assert(head.spec_bytes() =~= bytes.subrange(idx as int, ev.pos as int));
            assert(tail.spec_bytes() =~= bytes.subrange(ev.pos as int, bytes.len() as int));
            assert(encode_utf8(out@) =~= render_events(bytes, evs@.take(k + 1)));
        }
        idx = ev.pos;
        rest = tail;
        k = k + 1;
    }
    let ghost old_out = out@;
    out.append(rest);
    proof {
        lemma_encode_concat(old_out, rest@);
        assert(evs@.take(k as int) =~= evs@);
    }
    out
}

/// Styles `text` by rule `line`, given the group spans `spans` of its
/// pattern's match and what each of its tokens found (`found[t]`, `None`
/// where token `t` did not match): each group that took part gets its color,
/// and the text is rewritten with an escape sequence at each span boundary.
pub fn style_match(
    text: &str,
    line: &Line,
    spans: &Vec<Option<(usize, usize)>>,
    found: &Vec<Option<Vec<Option<(usize, usize)>>>>,
) -> (r: Result<String, ColorizeError>)
    requires
        spans_within(spans@, text.spec_bytes()),
        found@.len() == line.tokens@.len(),
        found_within(found_view(found@), text.spec_bytes()),
    ensures
        match r {
            Ok(out) => styled_match(text.spec_bytes(), *line, spans@, found_view(found@)) == Ok::<
                Seq<u8>,
                Fault,
            >(encode_utf8(out@)),
            Err(e) => styled_match(text.spec_bytes(), *line, spans@, found_view(found@)) == Err::<
                Seq<u8>,
                Fault,
            >(e@),
        },
{
    let ghost bytes = text.spec_bytes();
    let mut evs = match collect_line_events(spans, &line.colors, Ghost(bytes)) {
        Ok(v) => v,
        Err(e) => {
            return Err(e);
        },
    };
    match add_tokens_events(&mut evs, &line.tokens, found, Ghost(bytes)) {
        Ok(_) => {},
        Err(e) => {
            return Err(e);
        },
    }
    let n = text.as_bytes().len();
    assert(n == bytes.len());
    let sorted = sort_by_position(&evs, n);
    proof {
        lemma_by_position(evs@, 0, n as int, bytes);
    }
    Ok(render_line(text, &sorted))
}

/// Styles line `s` under `config`: the first line rule whose pattern matches
/// `s` colors the spans of its groups and of its tokens' groups, and its index
/// is returned with the styled line. A line that no rule matches comes back
/// unchanged, with no index.
pub fn colorize(s: String, config: &Config) -> (r: Result<(String, Option<usize>), ColorizeError>)
    ensures
        match r {
            Ok((out, idx)) => styled(s@, config.lines@) == Ok::<(Seq<u8>, Option<usize>), Fault>(
                (encode_utf8(out@), idx),
            ),
            Err(e) => styled(s@, config.lines@) == Err::<(Seq<u8>, Option<usize>), Fault>(e@),
        },
        first_match(config.lines@, s@, 0) is None ==> (r matches Ok((out, idx)) && out@ == s@
            && idx is None),
{
    let lines = &config.lines;
    let mut i: usize = 0;
    while i < lines.len()
        invariant
            i <= lines@.len(),
            lines@ == config.lines@,
            first_match(lines@, s@, 0) == first_match(lines@, s@, i as int),
        decreases lines@.len() - i,
    {
        let line = &lines[i];
        match captures(&line.pat, s.as_str()) {
            Some(spans) => {
                assert(first_match(lines@, s@, i as int) == Some(i as int));
                let text = s.as_str();
                let found = find_tokens(&line.tokens, text);
                return match style_match(text, line, &spans, &found) {
                    Ok(out) => Ok((out, Some(i))),
                    Err(e) => Err(e),
                };
            },
            None => {},
        }
        i = i + 1;
    }
    Ok((s, None))
}

proof fn lemma_first_match_from(text: Seq<char>, lines: Seq<Line>, i: int, k: int)
    requires
        0 <= k <= i < lines.len(),
        captures_of(lines[i].pat@, text) is Some,
        forall|j: int| 0 <= j < i ==> captures_of((#[trigger] lines[j]).pat@, text) is None,
    ensures
        first_match(lines, text, k) == Some(i),
    decreases i - k,
{
    if k < i {
        lemma_first_match_from(text, lines, i, k + 1);
    }
}

/// The first rule that matches a line decides how it is styled: when rule
/// `i` matches `text` and no earlier rule does, the result is the same under
/// any rule list that shares the rules up to `i`, whatever rules follow, and
/// the index reported is `i`.
pub proof fn lemma_first_match_wins(text: Seq<char>, lines: Seq<Line>, others: Seq<Line>, i: int)
    requires
        0 <= i < lines.len(),
        i < others.len(),
        lines.take(i + 1) == others.take(i + 1),
        captures_of(lines[i].pat@, text) is Some,
        forall|j: int| 0 <= j < i ==> captures_of((#[trigger] lines[j]).pat@, text) is None,
    ensures
        styled(text, lines) == styled(text, others),
        styled(text, lines) matches Ok((_, idx)) ==> idx == Some(i as usize),
{
    assert forall|j: int| 0 <= j <= i implies #[trigger] others[j] == lines[j] by {
        assert(others[j] == others.take(i + 1)[j]);
        assert(lines[j] == lines.take(i + 1)[j]);
    }
    assert forall|j: int| 0 <= j < i implies captures_of((#[trigger] others[j]).pat@, text) is None by {
        assert(others[j] == lines[j]);
    }
    lemma_first_match_from(text, lines, i, 0);
    lemma_first_match_from(text, others, i, 0);
}

} // verus!
