//! Every colored span that opens also closes: the events of a styled line
//! balance, and the sweep over them ends with only the default color left.

use vstd::prelude::*;
use vstd::utf8::*;

use crate::color::Color;
use crate::colorize::{
    by_position, end, events_at, line_events, rule_events, stack_after, start, token_events,
    tokens_events, Event, Line, Side, Token,
};
use crate::pattern::spans_within;

verus! {

/// How many events of `evs` are on side `side`.
pub open spec fn count_side(evs: Seq<Event>, side: Side) -> nat
    decreases evs.len(),
{
    if evs.len() == 0 {
        0
    } else {
        count_side(evs.drop_last(), side) + if evs.last().side == side {
            1nat
        } else {
            0nat
        }
    }
}

/// +1 for a start, -1 for an end.
pub open spec fn weight(ev: Event) -> int {
    match ev.side {
        Side::Start => 1,
        Side::End => -1,
    }
}

/// Starts minus ends in `evs`.
pub open spec fn net(evs: Seq<Event>) -> int
    decreases evs.len(),
{
    if evs.len() == 0 {
        0
    } else {
        net(evs.drop_last()) + weight(evs.last())
    }
}

/// Starts minus ends among the events of `evs` before offset `p`.
pub open spec fn net_before(evs: Seq<Event>, p: int) -> int
    decreases evs.len(),
{
    if evs.len() == 0 {
        0
    } else {
        net_before(evs.drop_last(), p) + if evs.last().pos < p {
            weight(evs.last())
        } else {
            0
        }
    }
}

/// The smaller of `a` and `b`.
pub open spec fn min(a: int, b: int) -> int {
    if a <= b {
        a
    } else {
        b
    }
}

/// The lowest value of `net` over the prefixes of `evs`.
pub open spec fn low(evs: Seq<Event>) -> int
    decreases evs.len(),
{
    if evs.len() == 0 {
        0
    } else {
        min(low(evs.drop_last()), net(evs))
    }
}

/// At every offset, sweeping the events there in their order never closes
/// more spans than were opened before.
pub open spec fn settles(evs: Seq<Event>) -> bool {
    forall|p: int| #[trigger] net_before(evs, p) + low(events_at(evs, p)) >= 0
}

/// Every event of `evs` lies at or before offset `n`.
pub open spec fn all_within(evs: Seq<Event>, n: int) -> bool {
    forall|i: int| 0 <= i < evs.len() ==> (#[trigger] evs[i]).pos <= n
}

/// Every span that took part starts before it ends.
pub open spec fn non_empty(spans: Seq<Option<(usize, usize)>>) -> bool {
    forall|j: int|
        0 <= j < spans.len() ==> match #[trigger] spans[j] {
            Some((s, e)) => s < e,
            None => true,
        }
}

proof fn lemma_concat(a: Seq<Event>, b: Seq<Event>, p: int)
    ensures
        net(a + b) == net(a) + net(b),
        net_before(a + b, p) == net_before(a, p) + net_before(b, p),
        events_at(a + b, p) == events_at(a, p) + events_at(b, p),
        count_side(a + b, Side::Start) == count_side(a, Side::Start) + count_side(b, Side::Start),
        count_side(a + b, Side::End) == count_side(a, Side::End) + count_side(b, Side::End),
    decreases b.len(),
{
    if b.len() == 0 {
        assert(a + b =~= a);
        assert(events_at(a, p) + events_at(b, p) =~= events_at(a, p));
    } else {
        lemma_concat(a, b.drop_last(), p);
        assert((a + b).drop_last() =~= a + b.drop_last());
        assert((a + b).last() == b.last());
        assert(events_at(a + b, p) =~= events_at(a, p) + events_at(b, p));
    }
}

proof fn lemma_low(a: Seq<Event>, b: Seq<Event>)
    ensures
        low(a + b) == min(low(a), net(a) + low(b)),
        low(a) <= 0,
        low(a) <= net(a),
    decreases a.len() + b.len(),
{
    if b.len() == 0 {
        assert(a + b =~= a);
        if a.len() > 0 {
            lemma_low(a.drop_last(), b);
        }
    } else {
        lemma_low(a, b.drop_last());
        lemma_concat(a, b, 0);
        lemma_concat(a, b.drop_last(), 0);
        assert((a + b).drop_last() =~= a + b.drop_last());
    }
}

proof fn lemma_net_before_all(evs: Seq<Event>, p: int)
    requires
        forall|i: int| 0 <= i < evs.len() ==> (#[trigger] evs[i]).pos < p,
    ensures
        net_before(evs, p) == net(evs),
    decreases evs.len(),
{
    if evs.len() > 0 {
        assert(evs[evs.len() - 1].pos < p);
        lemma_net_before_all(evs.drop_last(), p);
    }
}

proof fn lemma_net_events_at(evs: Seq<Event>, p: int)
    ensures
        net(events_at(evs, p)) == net_before(evs, p + 1) - net_before(evs, p),
    decreases evs.len(),
{
    if evs.len() > 0 {
        lemma_net_events_at(evs.drop_last(), p);
        if evs.last().pos == p {
            let r = events_at(evs, p);
            assert(r.drop_last() == events_at(evs.drop_last(), p));
        }
    }
}

proof fn lemma_net_by_position(evs: Seq<Event>, c: int)
    requires
        c >= -1,
    ensures
        net(by_position(evs, 0, c)) == net_before(evs, c + 1) - net_before(evs, 0),
    decreases c + 1,
{
    if c >= 0 {
        lemma_net_by_position(evs, c - 1);
        lemma_by_position_last(evs, c);
        lemma_concat(by_position(evs, 0, c - 1), events_at(evs, c), 0);
        lemma_net_events_at(evs, c);
    }
}

proof fn lemma_net_before_zero(evs: Seq<Event>)
    ensures
        net_before(evs, 0) == 0,
    decreases evs.len(),
{
    if evs.len() > 0 {
        lemma_net_before_zero(evs.drop_last());
    }
}

proof fn lemma_by_position_last(evs: Seq<Event>, c: int)
    requires
        c >= 0,
    ensures
        by_position(evs, 0, c) == by_position(evs, 0, c - 1) + events_at(evs, c),
    decreases c,
{
    if c == 0 {
        assert(by_position(evs, 1, 0) =~= Seq::<Event>::empty());
        assert(by_position(evs, 0, -1) =~= Seq::<Event>::empty());
        assert(by_position(evs, 0, 0) =~= by_position(evs, 0, -1) + events_at(evs, 0));
    } else {
        lemma_by_position_range_last(evs, 0, c);
    }
}

proof fn lemma_by_position_range_last(evs: Seq<Event>, a: int, c: int)
    requires
        a <= c,
    ensures
        by_position(evs, a, c) == by_position(evs, a, c - 1) + events_at(evs, c),
    decreases c - a,
{
    if a == c {
        assert(by_position(evs, a + 1, c) =~= Seq::<Event>::empty());
        assert(by_position(evs, a, c - 1) =~= Seq::<Event>::empty());
        assert(by_position(evs, a, c) =~= by_position(evs, a, c - 1) + events_at(evs, c));
    } else {
        lemma_by_position_range_last(evs, a + 1, c);
        assert(by_position(evs, a, c) =~= by_position(evs, a, c - 1) + events_at(evs, c));
    }
}

proof fn lemma_low_by_position(evs: Seq<Event>, c: int)
    requires
        settles(evs),
        c >= -1,
    ensures
        low(by_position(evs, 0, c)) >= 0,
    decreases c + 1,
{
    if c >= 0 {
        lemma_low_by_position(evs, c - 1);
        lemma_by_position_last(evs, c);
        lemma_low(by_position(evs, 0, c - 1), events_at(evs, c));
        lemma_net_by_position(evs, c - 1);
        lemma_net_before_zero(evs);
        assert(net_before(evs, c) + low(events_at(evs, c)) >= 0);
    } else {
        assert(by_position(evs, 0, c) =~= Seq::<Event>::empty());
    }
}

proof fn lemma_sweep(evs: Seq<Event>)
    requires
        low(evs) >= 0,
    ensures
        stack_after(evs).len() == 1 + net(evs),
        stack_after(evs)[0] == Color::Default,
    decreases evs.len(),
{
    if evs.len() > 0 {
        lemma_low(evs.drop_last(), seq![]);
        lemma_sweep(evs.drop_last());
    }
}

proof fn lemma_single(ev: Event, p: int)
    ensures
        events_at(seq![ev], p) == if ev.pos == p {
            seq![ev]
        } else {
            Seq::<Event>::empty()
        },
        net(seq![ev]) == weight(ev),
        net_before(seq![ev], p) == if ev.pos < p {
            weight(ev)
        } else {
            0
        },
        low(seq![ev]) == min(0, weight(ev)),
        count_side(seq![ev], Side::Start) == if ev.side == Side::Start {
            1nat
        } else {
            0nat
        },
        count_side(seq![ev], Side::End) == if ev.side == Side::End {
            1nat
        } else {
            0nat
        },
{
    let one = seq![ev];
    let e = Seq::<Event>::empty();
    assert(events_at(e, p) == e);
    assert(net_before(e, p) == 0);
    assert(count_side(e, Side::Start) == 0);
    assert(count_side(e, Side::End) == 0);
    assert(one.drop_last() =~= e);
    assert(one.last() == ev);
    if ev.pos == p {
        assert(events_at(one, p) =~= Seq::<Event>::empty().push(ev));
    } else {
        assert(events_at(one, p) =~= Seq::<Event>::empty());
    }
    assert(Seq::<Event>::empty().push(ev) =~= one);
    assert(low(e) == 0);
    assert(net(e) == 0);
}

proof fn lemma_low_empty()
    ensures
        low(Seq::<Event>::empty()) == 0,
        net(Seq::<Event>::empty()) == 0,
{
}

proof fn lemma_line_step(x: Seq<Event>, s: usize, e: usize, c: Color)
    requires
        settles(x),
        s <= e,
    ensures
        settles(x.push(start(s, c)).push(end(e, c))),
        net(x.push(start(s, c)).push(end(e, c))) == net(x),
        count_side(x.push(start(s, c)).push(end(e, c)), Side::Start) == count_side(x, Side::Start)
            + 1,
        count_side(x.push(start(s, c)).push(end(e, c)), Side::End) == count_side(x, Side::End) + 1,
{
    let a = seq![start(s, c)];
    let b = seq![end(e, c)];
    let y = x.push(start(s, c)).push(end(e, c));
    assert(y =~= (x + a) + b);
    lemma_low_empty();
    assert forall|p: int| #[trigger] net_before(y, p) + low(events_at(y, p)) >= 0 by {
        lemma_concat(x, a, p);
        lemma_concat(x + a, b, p);
        lemma_single(start(s, c), p);
        lemma_single(end(e, c), p);
        let m = events_at(x, p);
        let ea = events_at(a, p);
        let eb = events_at(b, p);
        assert(events_at(y, p) == (m + ea) + eb);
        lemma_low(m, ea);
        lemma_low(m + ea, eb);
        lemma_low(m, seq![]);
        lemma_concat(m, ea, p);
        assert(net_before(x, p) + low(m) >= 0);
    }
    lemma_concat(x, a, 0);
    lemma_concat(x + a, b, 0);
    lemma_single(start(s, c), 0);
    lemma_single(end(e, c), 0);
}

proof fn lemma_token_step(x: Seq<Event>, s: usize, e: usize, c: Color)
    requires
        settles(x),
        s < e,
    ensures
        settles(seq![end(e, c)] + x.push(start(s, c))),
        net(seq![end(e, c)] + x.push(start(s, c))) == net(x),
        count_side(seq![end(e, c)] + x.push(start(s, c)), Side::Start) == count_side(
            x,
            Side::Start,
        ) + 1,
        count_side(seq![end(e, c)] + x.push(start(s, c)), Side::End) == count_side(x, Side::End)
            + 1,
{
    let a = seq![end(e, c)];
    let b = seq![start(s, c)];
    let y = a + x.push(start(s, c));
    assert(x.push(start(s, c)) =~= x + b);
    assert(y =~= (a + x) + b);
    lemma_low_empty();
    assert forall|p: int| #[trigger] net_before(y, p) + low(events_at(y, p)) >= 0 by {
        lemma_concat(a, x, p);
        lemma_concat(a + x, b, p);
        lemma_single(start(s, c), p);
        lemma_single(end(e, c), p);
        let ea = events_at(a, p);
        let m = events_at(x, p);
        let eb = events_at(b, p);
        assert(events_at(y, p) == (ea + m) + eb);
        lemma_low(ea, m);
        lemma_low(ea + m, eb);
        lemma_low(m, seq![]);
        lemma_concat(ea, m, p);
        assert(net_before(x, p) + low(m) >= 0);
    }
    lemma_concat(a, x, 0);
    lemma_concat(a + x, b, 0);
    lemma_single(start(s, c), 0);
    lemma_single(end(e, c), 0);
}

proof fn lemma_line_events(
    spans: Seq<Option<(usize, usize)>>,
    names: Seq<String>,
    bytes: Seq<u8>,
)
    requires
        spans_within(spans, bytes),
        line_events(spans, names) is Ok,
    ensures
        settles(line_events(spans, names)->Ok_0),
        net(line_events(spans, names)->Ok_0) == 0,
        count_side(line_events(spans, names)->Ok_0, Side::Start) == count_side(
            line_events(spans, names)->Ok_0,
            Side::End,
        ),
        all_within(line_events(spans, names)->Ok_0, bytes.len() as int),
    decreases spans.len(),
{
    if spans.len() == 0 {
        assert forall|p: int| #[trigger]
            net_before(Seq::<Event>::empty(), p) + low(events_at(Seq::<Event>::empty(), p))
                >= 0 by {}
    } else {
        let rest = spans.drop_last();
        assert forall|j: int| 0 <= j < rest.len() implies match #[trigger] rest[j] {
            Some((s, e)) => {
                &&& s <= e <= bytes.len()
                &&& is_char_boundary(bytes, s as int)
                &&& is_char_boundary(bytes, e as int)
            },
            None => true,
        } by {
            assert(rest[j] == spans[j]);
        }
        lemma_line_events(rest, names, bytes);
        let x = line_events(rest, names)->Ok_0;
        assert(spans[spans.len() - 1] == spans.last());
        match spans.last() {
            None => {},
            Some((s, e)) => {
                let c = crate::colorize::group_color(names, spans.len() - 1)->Ok_0;
                lemma_line_step(x, s, e, c);
                let y = x.push(start(s, c)).push(end(e, c));
                assert forall|i: int| 0 <= i < y.len() implies (#[trigger] y[i]).pos
                    <= bytes.len() by {
                    if i < x.len() {
                        assert(y[i] == x[i]);
                    }
                }
            },
        }
    }
}

proof fn lemma_token_events(
    x: Seq<Event>,
    spans: Seq<Option<(usize, usize)>>,
    names: Seq<String>,
    bytes: Seq<u8>,
)
    requires
        settles(x),
        all_within(x, bytes.len() as int),
        spans_within(spans, bytes),
        non_empty(spans),
        token_events(x, spans, names) is Ok,
    ensures
        settles(token_events(x, spans, names)->Ok_0),
        net(token_events(x, spans, names)->Ok_0) == net(x),
        count_side(token_events(x, spans, names)->Ok_0, Side::Start) - count_side(
            token_events(x, spans, names)->Ok_0,
            Side::End,
        ) == count_side(x, Side::Start) - count_side(x, Side::End),
        all_within(token_events(x, spans, names)->Ok_0, bytes.len() as int),
    decreases spans.len(),
{
    if spans.len() > 0 {
        let rest = spans.drop_last();
        assert forall|j: int| 0 <= j < rest.len() implies match #[trigger] rest[j] {
            Some((s, e)) => {
                &&& s <= e <= bytes.len()
                &&& is_char_boundary(bytes, s as int)
                &&& is_char_boundary(bytes, e as int)
            },
            None => true,
        } by {
            assert(rest[j] == spans[j]);
        }
        assert forall|j: int| 0 <= j < rest.len() implies match #[trigger] rest[j] {
            Some((s, e)) => s < e,
            None => true,
        } by {
            assert(rest[j] == spans[j]);
        }
        lemma_token_events(x, rest, names, bytes);
        let prev = token_events(x, rest, names)->Ok_0;
        assert(spans[spans.len() - 1] == spans.last());
        match spans.last() {
            None => {},
            Some((s, e)) => {
                let c = crate::colorize::group_color(names, spans.len() - 1)->Ok_0;
                lemma_token_step(prev, s, e, c);
                let y = seq![end(e, c)] + prev.push(start(s, c));
                assert forall|i: int| 0 <= i < y.len() implies (#[trigger] y[i]).pos
                    <= bytes.len() by {
                    if 1 <= i < y.len() - 1 {
                        assert(y[i] == prev[i - 1]);
                    }
                }
            },
        }
    }
}

/// What the tokens found lies within `bytes`, and no group of theirs
/// matched an empty span.
pub open spec fn found_well_formed(
    found: Seq<Option<Seq<Option<(usize, usize)>>>>,
    bytes: Seq<u8>,
) -> bool {
    forall|t: int|
        0 <= t < found.len() ==> match #[trigger] found[t] {
            Some(ts) => spans_within(ts, bytes) && non_empty(ts),
            None => true,
        }
}

proof fn lemma_tokens_events(
    x: Seq<Event>,
    tokens: Seq<Token>,
    found: Seq<Option<Seq<Option<(usize, usize)>>>>,
    bytes: Seq<u8>,
)
    requires
        settles(x),
        all_within(x, bytes.len() as int),
        found_well_formed(found, bytes),
        tokens_events(x, tokens, found) is Ok,
    ensures
        settles(tokens_events(x, tokens, found)->Ok_0),
        net(tokens_events(x, tokens, found)->Ok_0) == net(x),
        all_within(tokens_events(x, tokens, found)->Ok_0, bytes.len() as int),
    decreases found.len(),
{
    if found.len() > 0 {
        let rest = found.drop_last();
        assert forall|t: int| 0 <= t < rest.len() implies match #[trigger] rest[t] {
            Some(ts) => spans_within(ts, bytes) && non_empty(ts),
            None => true,
        } by {
            assert(rest[t] == found[t]);
        }
        lemma_tokens_events(x, tokens, rest, bytes);
        let prev = tokens_events(x, tokens, rest)->Ok_0;
        assert(found[found.len() - 1] == found.last());
        match found.last() {
            None => {},
            Some(ts) => {
                lemma_token_events(prev, ts, tokens[found.len() - 1].colors@, bytes);
            },
        }
    }
}

/// Every span that opens also closes: for a rule `line` whose pattern
/// matched with group spans `spans` within the line's bytes `bytes`, and
/// whose tokens found `found`, styling produces as many start events as end
/// events.
pub proof fn lemma_starts_match_ends(
    line: Line,
    spans: Seq<Option<(usize, usize)>>,
    found: Seq<Option<Seq<Option<(usize, usize)>>>>,
    bytes: Seq<u8>,
)
    requires
        spans_within(spans, bytes),
        rule_events(line, spans, found) is Ok,
    ensures
        count_side(rule_events(line, spans, found)->Ok_0, Side::Start) == count_side(
            rule_events(line, spans, found)->Ok_0,
            Side::End,
        ),
{
    lemma_line_events(spans, line.colors@, bytes);
    lemma_tokens_count(line_events(spans, line.colors@)->Ok_0, line.tokens@, found);
}

proof fn lemma_tokens_count(
    x: Seq<Event>,
    tokens: Seq<Token>,
    found: Seq<Option<Seq<Option<(usize, usize)>>>>,
)
    requires
        tokens_events(x, tokens, found) is Ok,
    ensures
        count_side(tokens_events(x, tokens, found)->Ok_0, Side::Start) - count_side(
            tokens_events(x, tokens, found)->Ok_0,
            Side::End,
        ) == count_side(x, Side::Start) - count_side(x, Side::End),
    decreases found.len(),
{
    if found.len() > 0 {
        lemma_tokens_count(x, tokens, found.drop_last());
        let prev = tokens_events(x, tokens, found.drop_last())->Ok_0;
        match found.last() {
            None => {},
            Some(ts) => {
                lemma_token_count(prev, ts, tokens[found.len() - 1].colors@);
            },
        }
    }
}

proof fn lemma_token_count(x: Seq<Event>, spans: Seq<Option<(usize, usize)>>, names: Seq<String>)
    requires
        token_events(x, spans, names) is Ok,
    ensures
        count_side(token_events(x, spans, names)->Ok_0, Side::Start) - count_side(
            token_events(x, spans, names)->Ok_0,
            Side::End,
        ) == count_side(x, Side::Start) - count_side(x, Side::End),
    decreases spans.len(),
{
    if spans.len() > 0 {
        lemma_token_count(x, spans.drop_last(), names);
        let prev = token_events(x, spans.drop_last(), names)->Ok_0;
        match spans.last() {
            None => {},
            Some((s, e)) => {
                let c = crate::colorize::group_color(names, spans.len() - 1)->Ok_0;
                let a = seq![end(e, c)];
                let b = seq![start(s, c)];
                assert(prev.push(start(s, c)) =~= prev + b);
                assert(a + prev.push(start(s, c)) =~= (a + prev) + b);
                lemma_concat(a, prev, 0);
                lemma_concat(a + prev, b, 0);
                lemma_single(start(s, c), 0);
                lemma_single(end(e, c), 0);
            },
        }
    }
}

/// The sweep ends where it began: for a rule `line` whose pattern matched
/// with group spans `spans` within the line's bytes `bytes`, and whose tokens
/// found `found` within them with no group matching an empty span, the color
/// stack after sweeping the styling's events in order of offset is
/// `[Default]` again.
pub proof fn lemma_stack_returns_to_default(
    line: Line,
    spans: Seq<Option<(usize, usize)>>,
    found: Seq<Option<Seq<Option<(usize, usize)>>>>,
    bytes: Seq<u8>,
)
    requires
        spans_within(spans, bytes),
        found_well_formed(found, bytes),
        rule_events(line, spans, found) is Ok,
    ensures
        stack_after(by_position(rule_events(line, spans, found)->Ok_0, 0, bytes.len() as int))
            == seq![Color::Default],
{
    let n = bytes.len() as int;
    lemma_line_events(spans, line.colors@, bytes);
    let x = line_events(spans, line.colors@)->Ok_0;
    lemma_tokens_events(x, line.tokens@, found, bytes);
    let evs = rule_events(line, spans, found)->Ok_0;
    lemma_low_by_position(evs, n);
    let sorted = by_position(evs, 0, n);
    lemma_sweep(sorted);
    lemma_net_by_position(evs, n);
    lemma_net_before_zero(evs);
    lemma_net_before_all(evs, n + 1);
    assert(stack_after(sorted) =~= seq![Color::Default]);
}

} // verus!
